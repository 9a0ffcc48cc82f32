//! Completed-token claims of a scalar: which `.Values` paths a scalar's
//! arms render as the raw text of a whole token, inside double or single
//! quotes, or (for template-carrying values) as plain token text.
//!
//! The quote context at a splice comes from a scanner over the literal
//! text before it; a path claims only when every scalar arm agrees, since
//! the arms partition what the token renders.

use vstd::prelude::*;

use crate::domain::{
    lemma_text_before_total, lemma_text_before_transitive, ordered_strings, string_before, text_before,
    PathCondition, Splice, StringPart, ValueKind,
};
use crate::text::chars_of;

verus! {

/// The quoting a scanner is inside after some literal text.
#[derive(Clone, Copy, Debug, PartialEq, Eq, Structural)]
pub enum QuoteContext {
    Plain,
    Double,
    Single,
}

/// The quote context after `text`, starting in `state`: a double quote
/// opens or closes a double-quoted run, in which a backslash escapes the
/// next character; a single quote opens or closes a single-quoted run, in
/// which a doubled single quote stands for one.
pub open spec fn advance_quote(state: QuoteContext, text: Seq<char>) -> QuoteContext
    decreases text.len(),
{
    if text.len() == 0 {
        state
    } else {
        let c = text[0];
        let rest = text.drop_first();
        match state {
            QuoteContext::Plain => if c == '"' {
                advance_quote(QuoteContext::Double, rest)
            } else if c == '\'' {
                advance_quote(QuoteContext::Single, rest)
            } else {
                advance_quote(QuoteContext::Plain, rest)
            },
            QuoteContext::Double => if c == '"' {
                advance_quote(QuoteContext::Plain, rest)
            } else if c == '\\' {
                if rest.len() > 0 {
                    advance_quote(QuoteContext::Double, rest.drop_first())
                } else {
                    QuoteContext::Double
                }
            } else {
                advance_quote(QuoteContext::Double, rest)
            },
            QuoteContext::Single => if c == '\'' {
                if rest.len() > 0 && rest[0] == '\'' {
                    advance_quote(QuoteContext::Single, rest.drop_first())
                } else {
                    advance_quote(QuoteContext::Plain, rest)
                }
            } else {
                advance_quote(QuoteContext::Single, rest)
            },
        }
    }
}

/// The quote context after `text` (see [`advance_quote`]).
pub fn advance_quote_context(state: QuoteContext, text: &String) -> (next: QuoteContext)
    ensures
        next == advance_quote(state, text@),
{
    let chars = chars_of(text.as_str());
    let n = chars.len();
    let mut current = state;
    let mut i: usize = 0;
    assert(chars@.skip(0) =~= chars@);
    while i < n
        invariant
            n == chars@.len(),
            chars@ == text@,
            i <= n,
            advance_quote(state, text@) == advance_quote(current, chars@.skip(i as int)),
        decreases n - i,
    {
        let c = chars[i];
        let ghost here = chars@.skip(i as int);
        proof {
            assert(here[0] == c);
            assert(here.drop_first() =~= chars@.skip(i + 1));
            if i + 1 < n {
                assert(chars@.skip(i + 1)[0] == chars@[i + 1]);
                assert(chars@.skip(i + 1).drop_first() =~= chars@.skip(i + 2));
            }
        }
        match current {
            QuoteContext::Plain => {
                if c == '"' {
                    current = QuoteContext::Double;
                } else if c == '\'' {
                    current = QuoteContext::Single;
                }
                i += 1;
            },
            QuoteContext::Double => {
                if c == '"' {
                    current = QuoteContext::Plain;
                    i += 1;
                } else if c == '\\' {
                    if i + 1 < n {
                        i += 2;
                    } else {
                        i = n;
                    }
                } else {
                    i += 1;
                }
            },
            QuoteContext::Single => {
                if c == '\'' {
                    if i + 1 < n && chars[i + 1] == '\'' {
                        i += 2;
                    } else {
                        current = QuoteContext::Plain;
                        i += 1;
                    }
                } else {
                    i += 1;
                }
            },
        }
    }
    proof {
        assert(chars@.skip(n as int).len() == 0);
    }
    current
}

/// Which of the six claim sets a path joins.
#[derive(Clone, Copy, Debug, PartialEq, Eq, Structural)]
pub enum ClaimKind {
    /// The raw value is the whole plain token, from its first character.
    TokenInitial,
    /// The raw value sits inside double quotes.
    DoubleQuoted,
    /// The raw value sits inside single quotes.
    SingleQuoted,
    /// A template-carrying value sits inside double quotes.
    DoubleQuotedTemplated,
    /// A template-carrying value sits inside single quotes.
    SingleQuotedTemplated,
    /// A template-carrying value sits unquoted in a value slot.
    PlainTemplated,
}

/// The six claim sets as sets of path texts.
#[verifier::ext_equal]
pub struct ClaimsView {
    pub token_initial: Set<Seq<char>>,
    pub double_quoted: Set<Seq<char>>,
    pub single_quoted: Set<Seq<char>>,
    pub double_quoted_templated: Set<Seq<char>>,
    pub single_quoted_templated: Set<Seq<char>>,
    pub plain_templated: Set<Seq<char>>,
}

/// No claims.
pub open spec fn no_claims() -> ClaimsView {
    ClaimsView {
        token_initial: Set::empty(),
        double_quoted: Set::empty(),
        single_quoted: Set::empty(),
        double_quoted_templated: Set::empty(),
        single_quoted_templated: Set::empty(),
        plain_templated: Set::empty(),
    }
}

/// `claims` with `path` added to the set of `kind`.
pub open spec fn add_claim(claims: ClaimsView, kind: ClaimKind, path: Seq<char>) -> ClaimsView {
    ClaimsView {
        token_initial: if kind == ClaimKind::TokenInitial {
            claims.token_initial.insert(path)
        } else {
            claims.token_initial
        },
        double_quoted: if kind == ClaimKind::DoubleQuoted {
            claims.double_quoted.insert(path)
        } else {
            claims.double_quoted
        },
        single_quoted: if kind == ClaimKind::SingleQuoted {
            claims.single_quoted.insert(path)
        } else {
            claims.single_quoted
        },
        double_quoted_templated: if kind == ClaimKind::DoubleQuotedTemplated {
            claims.double_quoted_templated.insert(path)
        } else {
            claims.double_quoted_templated
        },
        single_quoted_templated: if kind == ClaimKind::SingleQuotedTemplated {
            claims.single_quoted_templated.insert(path)
        } else {
            claims.single_quoted_templated
        },
        plain_templated: if kind == ClaimKind::PlainTemplated {
            claims.plain_templated.insert(path)
        } else {
            claims.plain_templated
        },
    }
}

/// The claims both `a` and `b` make, set by set.
pub open spec fn common_claims(a: ClaimsView, b: ClaimsView) -> ClaimsView {
    ClaimsView {
        token_initial: a.token_initial.intersect(b.token_initial),
        double_quoted: a.double_quoted.intersect(b.double_quoted),
        single_quoted: a.single_quoted.intersect(b.single_quoted),
        double_quoted_templated: a.double_quoted_templated.intersect(b.double_quoted_templated),
        single_quoted_templated: a.single_quoted_templated.intersect(b.single_quoted_templated),
        plain_templated: a.plain_templated.intersect(b.plain_templated),
    }
}

/// The texts of a string list, as a set.
pub open spec fn text_set(v: Seq<String>) -> Set<Seq<char>> {
    Set::new(|p: Seq<char>| exists|i: int| 0 <= i < v.len() && (#[trigger] v[i])@ == p)
}

/// Whether a splice renders its value's raw text: a partial scalar that no
/// transform reshapes, not a range key or a split segment, with a path
/// that carries no template.
pub open spec fn raw_splice(s: Splice, templated: Set<Seq<char>>) -> bool {
    &&& s.kind == ValueKind::PartialScalar
    &&& !s.meta.encoded
    &&& !s.meta.shape_erased
    &&& !s.meta.yaml_serialized
    &&& !s.meta.string_contract
    &&& !s.meta.json_serialized
    &&& !s.meta.split_segment
    &&& !s.meta.range_key
    &&& s.values_path@.len() > 0
    &&& !templated.contains(s.values_path@)
}

/// Whether a splice renders a template-carrying value's own text: no
/// encoding, serialization or split, and any shape erasure a plain
/// stringification.
pub open spec fn templated_splice(s: Splice, templated: Set<Seq<char>>) -> bool {
    &&& templated.contains(s.values_path@)
    &&& !s.meta.encoded
    &&& (!s.meta.shape_erased || s.meta.stringified)
    &&& !s.meta.yaml_serialized
    &&& !s.meta.json_serialized
    &&& !s.meta.split_segment
}

/// What a splice at part `index` adds to the claims, in context `context`
/// after literal text (`preceding`) or none.
pub open spec fn splice_claims(
    claims: ClaimsView,
    s: Splice,
    context: QuoteContext,
    index: int,
    preceding: bool,
    templated: Set<Seq<char>>,
    value_slot: bool,
) -> ClaimsView {
    let path = s.values_path@;
    let t = templated_splice(s, templated);
    let c1 = if context == QuoteContext::Plain && value_slot && t {
        add_claim(claims, ClaimKind::PlainTemplated, path)
    } else {
        claims
    };
    let c2 = if t && context == QuoteContext::Double {
        add_claim(c1, ClaimKind::DoubleQuotedTemplated, path)
    } else if t && context == QuoteContext::Single {
        add_claim(c1, ClaimKind::SingleQuotedTemplated, path)
    } else {
        c1
    };
    if !raw_splice(s, templated) {
        c2
    } else if context == QuoteContext::Double {
        add_claim(c2, ClaimKind::DoubleQuoted, path)
    } else if context == QuoteContext::Single {
        add_claim(c2, ClaimKind::SingleQuoted, path)
    } else if index == 0 && !preceding && !s.meta.defaulted {
        add_claim(c2, ClaimKind::TokenInitial, path)
    } else {
        c2
    }
}

/// The state of a scan through one arm's parts.
pub struct ScanView {
    pub claims: ClaimsView,
    pub context: QuoteContext,
    pub preceding: bool,
    pub stopped: bool,
}

/// Whether all alternatives leave the same quote context behind.
pub open spec fn texts_agree(alternatives: Seq<String>, context: QuoteContext) -> bool {
    forall|i: int|
        0 <= i < alternatives.len() ==> advance_quote(context, (#[trigger] alternatives[i])@) == advance_quote(
            context,
            alternatives[0]@,
        )
}

/// Whether some alternative is non-empty text.
pub open spec fn any_text(alternatives: Seq<String>) -> bool {
    exists|i: int| 0 <= i < alternatives.len() && (#[trigger] alternatives[i])@.len() > 0
}

/// One part scanned: text moves the quote context (the scan stops, keeping
/// its claims, where alternatives disagree on it); a splice may claim its
/// path; taint does nothing.
pub open spec fn scan_step(
    st: ScanView,
    part: StringPart,
    index: int,
    templated: Set<Seq<char>>,
    value_slot: bool,
) -> ScanView {
    match part {
        StringPart::Text(alternatives) => {
            let preceding = st.preceding || any_text(alternatives@);
            if alternatives@.len() == 0 {
                ScanView { claims: st.claims, context: st.context, preceding, stopped: false }
            } else if texts_agree(alternatives@, st.context) {
                ScanView {
                    claims: st.claims,
                    context: advance_quote(st.context, alternatives@[0]@),
                    preceding,
                    stopped: false,
                }
            } else {
                ScanView { claims: st.claims, context: st.context, preceding, stopped: true }
            }
        },
        StringPart::Splice(s) => ScanView {
            claims: splice_claims(st.claims, s, st.context, index, st.preceding, templated, value_slot),
            context: st.context,
            preceding: st.preceding,
            stopped: false,
        },
        StringPart::Taint(_) => st,
    }
}

/// The scan through the first `k` parts.
pub open spec fn scan(parts: Seq<StringPart>, k: int, templated: Set<Seq<char>>, value_slot: bool) -> ScanView
    decreases k,
{
    if k <= 0 || k > parts.len() {
        ScanView { claims: no_claims(), context: QuoteContext::Plain, preceding: false, stopped: false }
    } else {
        let st = scan(parts, k - 1, templated, value_slot);
        if st.stopped {
            st
        } else {
            scan_step(st, parts[k - 1], k - 1, templated, value_slot)
        }
    }
}

/// The claims one arm's parts make.
pub open spec fn arm_claims(parts: Seq<StringPart>, templated: Set<Seq<char>>, value_slot: bool) -> ClaimsView {
    scan(parts, parts.len() as int, templated, value_slot).claims
}

/// The claims the first `k` arms all make.
pub open spec fn agreed_claims(
    arms: Seq<(PathCondition, Vec<StringPart>)>,
    k: int,
    templated: Set<Seq<char>>,
    value_slot: bool,
) -> ClaimsView
    decreases k,
{
    if k <= 1 {
        arm_claims(arms[0].1@, templated, value_slot)
    } else {
        common_claims(
            agreed_claims(arms, k - 1, templated, value_slot),
            arm_claims(arms[k - 1].1@, templated, value_slot),
        )
    }
}

/// Whether `text` is in `v`.
fn contains_text(v: &Vec<String>, text: &String) -> (found: bool)
    ensures
        found == text_set(v@).contains(text@),
{
    let mut i: usize = 0;
    while i < v.len()
        invariant
            i <= v@.len(),
            forall|j: int| 0 <= j < i ==> (#[trigger] v@[j])@ != text@,
        decreases v@.len() - i,
    {
        if v[i] == *text {
            proof {
                assert(v@[i as int]@ == text@);
            }
            return true;
        }
        i += 1;
    }
    false
}

/// Add `text` to the ordered set `v` in its place, unless it is there.
fn insert_text(v: &mut Vec<String>, text: &String)
    requires
        ordered_strings(old(v)@),
    ensures
        ordered_strings(final(v)@),
        text_set(final(v)@) == text_set(old(v)@).insert(text@),
{
    let ghost before = v@;
    let mut p: usize = 0;
    while p < v.len() && string_before(&v[p], text)
        invariant
            v@ == before,
            p <= v@.len(),
            forall|k: int| 0 <= k < p ==> text_before((#[trigger] v@[k])@, text@),
        decreases v@.len() - p,
    {
        p += 1;
    }
    if p < v.len() && v[p] == *text {
        proof {
            assert(text_set(before).contains(text@)) by {
                assert(before[p as int]@ == text@);
            }
            assert(text_set(v@) =~= text_set(before).insert(text@));
        }
        return;
    }
    proof {
        if p < before.len() {
            lemma_text_before_total(before[p as int]@, text@);
        }
    }
    v.insert(p, text.clone());
    proof {
        assert forall|a: int, b: int| 0 <= a < b < v@.len() implies text_before(
            (#[trigger] v@[a])@,
            (#[trigger] v@[b])@,
        ) by {
            if b < p {
                assert(v@[a] == before[a] && v@[b] == before[b]);
            } else if b == p {
                assert(v@[a] == before[a]);
            } else if a < p {
                assert(v@[a] == before[a] && v@[b] == before[b - 1]);
                assert(text_before(before[a]@, text@));
                assert(text_before(text@, before[p as int]@));
                if b - 1 > p {
                    lemma_text_before_transitive(text@, before[p as int]@, before[b - 1]@);
                }
                lemma_text_before_transitive(before[a]@, text@, before[b - 1]@);
            } else if a == p {
                assert(v@[b] == before[b - 1]);
                if b - 1 > p {
                    lemma_text_before_transitive(text@, before[p as int]@, before[b - 1]@);
                }
            } else {
                assert(v@[a] == before[a - 1] && v@[b] == before[b - 1]);
            }
        }
        assert forall|q: Seq<char>| text_set(v@).contains(q) <==> text_set(before).insert(text@).contains(q) by {
            if text_set(v@).contains(q) {
                let k = choose|k: int| 0 <= k < v@.len() && (#[trigger] v@[k])@ == q;
                if k < p {
                    assert(before[k]@ == q);
                } else if k > p {
                    assert(before[k - 1]@ == q);
                }
            }
            if text_set(before).contains(q) {
                let k = choose|k: int| 0 <= k < before.len() && (#[trigger] before[k])@ == q;
                if k < p {
                    assert(v@[k]@ == q);
                } else {
                    assert(v@[k + 1]@ == q);
                }
            }
            if q == text@ {
                assert(v@[p as int]@ == q);
            }
        }
        assert(text_set(v@) =~= text_set(before).insert(text@));
    }
}

/// The texts of the ordered set `v` that `other` holds too, in order.
fn common_texts(v: &Vec<String>, other: &Vec<String>) -> (kept: Vec<String>)
    requires
        ordered_strings(v@),
    ensures
        ordered_strings(kept@),
        text_set(kept@) == text_set(v@).intersect(text_set(other@)),
{
    let mut kept: Vec<String> = Vec::new();
    let mut i: usize = 0;
    while i < v.len()
        invariant
            i <= v@.len(),
            ordered_strings(v@),
            ordered_strings(kept@),
            forall|k: int| 0 <= k < kept@.len() ==> exists|j: int| 0 <= j < i && (#[trigger] kept@[k])@ == (
                #[trigger] v@[j])@,
            text_set(kept@) == text_set(v@.take(i as int)).intersect(text_set(other@)),
        decreases v@.len() - i,
    {
        let ghost before = kept@;
        let ghost t = v@[i as int]@;
        let found = contains_text(other, &v[i]);
        if found {
            kept.push(v[i].clone());
            proof {
                assert forall|a: int, b: int| 0 <= a < b < kept@.len() implies text_before(
                    (#[trigger] kept@[a])@,
                    (#[trigger] kept@[b])@,
                ) by {
                    if b == before.len() {
                        assert(kept@[a] == before[a]);
                        let j = choose|j: int| 0 <= j < i && (#[trigger] before[a])@ == (#[trigger] v@[j])@;
                        assert(text_before(v@[j]@, v@[i as int]@));
                    } else {
                        assert(kept@[a] == before[a] && kept@[b] == before[b]);
                    }
                }
                assert forall|k: int| 0 <= k < kept@.len() implies exists|j: int| 0 <= j < i + 1 && (
                    #[trigger] kept@[k])@ == (#[trigger] v@[j])@ by {
                    if k < before.len() {
                        assert(kept@[k] == before[k]);
                        let j = choose|j: int| 0 <= j < i && (#[trigger] before[k])@ == (#[trigger] v@[j])@;
                        assert(kept@[k]@ == v@[j]@);
                    } else {
                        assert(kept@[k]@ == v@[i as int]@);
                    }
                }
            }
        }
        proof {
            assert forall|p: Seq<char>| text_set(v@.take(i + 1)).contains(p) <==> (text_set(v@.take(i as int)).contains(p)
                || p == t) by {
                if text_set(v@.take(i + 1)).contains(p) {
                    let j = choose|j: int| 0 <= j < i + 1 && (#[trigger] v@.take(i + 1)[j])@ == p;
                    if j < i {
                        assert(v@.take(i as int)[j] == v@.take(i + 1)[j]);
                    }
                }
                if text_set(v@.take(i as int)).contains(p) {
                    let j = choose|j: int| 0 <= j < i && (#[trigger] v@.take(i as int)[j])@ == p;
                    assert(v@.take(i + 1)[j] == v@.take(i as int)[j]);
                }
                if p == t {
                    assert(v@.take(i + 1)[i as int]@ == p);
                }
            }
            assert(found == text_set(other@).contains(t));
            assert forall|p: Seq<char>| text_set(kept@).contains(p) <==> (text_set(v@.take(i + 1)).contains(p)
                && text_set(other@).contains(p)) by {
                if found {
                    if text_set(kept@).contains(p) {
                        let k = choose|k: int| 0 <= k < kept@.len() && (#[trigger] kept@[k])@ == p;
                        if k < before.len() {
                            assert(before[k]@ == p);
                        }
                    }
                    if text_set(before).contains(p) {
                        let k = choose|k: int| 0 <= k < before.len() && (#[trigger] before[k])@ == p;
                        assert(kept@[k]@ == p);
                    }
                    if p == t {
                        assert(kept@[before.len() as int]@ == p);
                    }
                } else {
                    assert(kept@ == before);
                }
                assert(text_set(before) == text_set(v@.take(i as int)).intersect(text_set(other@)));
                assert(text_set(before).contains(p) == (text_set(v@.take(i as int)).contains(p) && text_set(
                    other@,
                ).contains(p)));
            }
            assert(text_set(kept@) =~= text_set(v@.take(i + 1)).intersect(text_set(other@)));
        }
        i += 1;
    }
    assert(v@.take(v@.len() as int) =~= v@);
    kept
}

/// The claims of a scalar's arms, as lists of path texts.
#[derive(Debug)]
pub struct TokenClaims {
    pub token_initial: Vec<String>,
    pub double_quoted: Vec<String>,
    pub single_quoted: Vec<String>,
    pub double_quoted_templated: Vec<String>,
    pub single_quoted_templated: Vec<String>,
    pub plain_templated: Vec<String>,
}

impl View for TokenClaims {
    type V = ClaimsView;

    open spec fn view(&self) -> ClaimsView {
        ClaimsView {
            token_initial: text_set(self.token_initial@),
            double_quoted: text_set(self.double_quoted@),
            single_quoted: text_set(self.single_quoted@),
            double_quoted_templated: text_set(self.double_quoted_templated@),
            single_quoted_templated: text_set(self.single_quoted_templated@),
            plain_templated: text_set(self.plain_templated@),
        }
    }
}

impl TokenClaims {
    /// Whether every claim list is a set in increasing order, as the
    /// original's ordered sets iterate.
    pub open spec fn ordered(&self) -> bool {
        &&& ordered_strings(self.token_initial@)
        &&& ordered_strings(self.double_quoted@)
        &&& ordered_strings(self.single_quoted@)
        &&& ordered_strings(self.double_quoted_templated@)
        &&& ordered_strings(self.single_quoted_templated@)
        &&& ordered_strings(self.plain_templated@)
    }

    /// No claims.
    pub fn new() -> (claims: Self)
        ensures
            claims@ == no_claims(),
            claims.ordered(),
    {
        let claims = TokenClaims {
            token_initial: Vec::new(),
            double_quoted: Vec::new(),
            single_quoted: Vec::new(),
            double_quoted_templated: Vec::new(),
            single_quoted_templated: Vec::new(),
            plain_templated: Vec::new(),
        };
        assert(text_set(Seq::<String>::empty()) =~= Set::<Seq<char>>::empty());
        assert(claims@ =~= no_claims());
        claims
    }

    /// Add `path` to the set of `kind`.
    fn add(&mut self, kind: ClaimKind, path: &String)
        requires
            old(self).ordered(),
        ensures
            final(self).ordered(),
            final(self)@ == add_claim(old(self)@, kind, path@),
    {
        match kind {
            ClaimKind::TokenInitial => insert_text(&mut self.token_initial, path),
            ClaimKind::DoubleQuoted => insert_text(&mut self.double_quoted, path),
            ClaimKind::SingleQuoted => insert_text(&mut self.single_quoted, path),
            ClaimKind::DoubleQuotedTemplated => insert_text(&mut self.double_quoted_templated, path),
            ClaimKind::SingleQuotedTemplated => insert_text(&mut self.single_quoted_templated, path),
            ClaimKind::PlainTemplated => insert_text(&mut self.plain_templated, path),
        }
        assert(self@ =~= add_claim(old(self)@, kind, path@));
    }

    /// Keep only the claims `other` makes too.
    fn keep_common(&mut self, other: &TokenClaims)
        requires
            old(self).ordered(),
        ensures
            final(self).ordered(),
            final(self)@ == common_claims(old(self)@, other@),
    {
        self.token_initial = common_texts(&self.token_initial, &other.token_initial);
        self.double_quoted = common_texts(&self.double_quoted, &other.double_quoted);
        self.single_quoted = common_texts(&self.single_quoted, &other.single_quoted);
        self.double_quoted_templated = common_texts(&self.double_quoted_templated, &other.double_quoted_templated);
        self.single_quoted_templated = common_texts(&self.single_quoted_templated, &other.single_quoted_templated);
        self.plain_templated = common_texts(&self.plain_templated, &other.plain_templated);
        assert(self@ =~= common_claims(old(self)@, other@));
    }
}

/// What a splice at part `index` adds to `claims` (see [`splice_claims`]).
fn claim_splice(
    claims: &mut TokenClaims,
    s: &Splice,
    context: QuoteContext,
    index: usize,
    preceding: bool,
    templated: &Vec<String>,
    value_slot: bool,
)
    requires
        old(claims).ordered(),
    ensures
        final(claims).ordered(),
        final(claims)@ == splice_claims(
            old(claims)@,
            *s,
            context,
            index as int,
            preceding,
            text_set(templated@),
            value_slot,
        ),
{
    let is_templated = contains_text(templated, &s.values_path);
    let t = is_templated && !s.meta.encoded && (!s.meta.shape_erased || s.meta.stringified)
        && !s.meta.yaml_serialized && !s.meta.json_serialized && !s.meta.split_segment;
    if context == QuoteContext::Plain && value_slot && t {
        claims.add(ClaimKind::PlainTemplated, &s.values_path);
    }
    if t && context == QuoteContext::Double {
        claims.add(ClaimKind::DoubleQuotedTemplated, &s.values_path);
    } else if t && context == QuoteContext::Single {
        claims.add(ClaimKind::SingleQuotedTemplated, &s.values_path);
    }
    let raw = s.kind == ValueKind::PartialScalar && !s.meta.encoded && !s.meta.shape_erased
        && !s.meta.yaml_serialized && !s.meta.string_contract && !s.meta.json_serialized
        && !s.meta.split_segment && !s.meta.range_key && !s.values_path.as_str().is_empty() && !is_templated;
    if raw {
        if context == QuoteContext::Double {
            claims.add(ClaimKind::DoubleQuoted, &s.values_path);
        } else if context == QuoteContext::Single {
            claims.add(ClaimKind::SingleQuoted, &s.values_path);
        } else if index == 0 && !preceding && !s.meta.defaulted {
            claims.add(ClaimKind::TokenInitial, &s.values_path);
        }
    }
}

/// Whether every alternative leaves the quote context the first one does,
/// and whether some alternative is non-empty.
fn scan_texts(alternatives: &Vec<String>, context: QuoteContext) -> (found: (bool, bool))
    requires
        alternatives@.len() > 0,
    ensures
        found.0 == texts_agree(alternatives@, context),
        found.1 == any_text(alternatives@),
{
    let first = advance_quote_context(context, &alternatives[0]);
    let mut agree = true;
    let mut nonempty = false;
    let mut i: usize = 0;
    while i < alternatives.len()
        invariant
            i <= alternatives@.len(),
            alternatives@.len() > 0,
            first == advance_quote(context, alternatives@[0]@),
            agree == forall|j: int| 0 <= j < i ==> advance_quote(context, (#[trigger] alternatives@[j])@) == first,
            nonempty == exists|j: int| 0 <= j < i && (#[trigger] alternatives@[j])@.len() > 0,
        decreases alternatives@.len() - i,
    {
        if advance_quote_context(context, &alternatives[i]) != first {
            agree = false;
        }
        if !alternatives[i].as_str().is_empty() {
            nonempty = true;
        }
        i += 1;
    }
    (agree, nonempty)
}

/// The claims one arm's parts make (see [`arm_claims`]).
fn claims_of_arm(parts: &Vec<StringPart>, templated: &Vec<String>, value_slot: bool) -> (claims: TokenClaims)
    ensures
        claims.ordered(),
        claims@ == arm_claims(parts@, text_set(templated@), value_slot),
{
    let ghost tset = text_set(templated@);
    let mut claims = TokenClaims::new();
    let mut context = QuoteContext::Plain;
    let mut preceding = false;
    let mut i: usize = 0;
    while i < parts.len()
        invariant
            i <= parts@.len(),
            tset == text_set(templated@),
            claims.ordered(),
            scan(parts@, i as int, tset, value_slot) == (ScanView {
                claims: claims@,
                context,
                preceding,
                stopped: false,
            }),
        decreases parts@.len() - i,
    {
        match &parts[i] {
            StringPart::Text(alternatives) => {
                if alternatives.len() > 0 {
                    let (agree, nonempty) = scan_texts(alternatives, context);
                    preceding = preceding || nonempty;
                    if !agree {
                        proof {
                            lemma_scan_stays_stopped(parts@, i + 1, parts@.len() as int, tset, value_slot);
                        }
                        return claims;
                    }
                    context = advance_quote_context(context, &alternatives[0]);
                } else {
                    proof {
                        assert(!any_text(alternatives@));
                    }
                }
            },
            StringPart::Splice(s) => {
                claim_splice(&mut claims, s, context, i, preceding, templated, value_slot);
            },
            StringPart::Taint(_) => {},
        }
        proof {
            let st = scan(parts@, i + 1, tset, value_slot);
            assert(st.claims =~= claims@);
        }
        i += 1;
    }
    claims
}

/// Once a scan stops, later parts change nothing.
proof fn lemma_scan_stays_stopped(
    parts: Seq<StringPart>,
    k: int,
    m: int,
    templated: Set<Seq<char>>,
    value_slot: bool,
)
    requires
        0 < k <= m <= parts.len(),
        scan(parts, k, templated, value_slot).stopped,
    ensures
        scan(parts, m, templated, value_slot) == scan(parts, k, templated, value_slot),
    decreases m - k,
{
    if m > k {
        lemma_scan_stays_stopped(parts, k, m - 1, templated, value_slot);
    }
}

/// The claims every arm of a scalar makes: `None` for a scalar without
/// arms, otherwise the paths each claim set holds in all arms alike, each
/// list in increasing order without repeats.
pub fn completed_token_claims(
    arms: &Vec<(PathCondition, Vec<StringPart>)>,
    templated: &Vec<String>,
    value_slot: bool,
) -> (claims: Option<TokenClaims>)
    ensures
        claims is None <==> arms@.len() == 0,
        claims matches Some(c) ==> c@ == agreed_claims(arms@, arms@.len() as int, text_set(templated@), value_slot),
        claims matches Some(c) ==> c.ordered(),
{
    if arms.len() == 0 {
        return None;
    }
    let mut agreed = claims_of_arm(&arms[0].1, templated, value_slot);
    let mut k: usize = 1;
    while k < arms.len()
        invariant
            1 <= k <= arms@.len(),
            agreed.ordered(),
            agreed@ == agreed_claims(arms@, k as int, text_set(templated@), value_slot),
        decreases arms@.len() - k,
    {
        let next = claims_of_arm(&arms[k].1, templated, value_slot);
        agreed.keep_common(&next);
        k += 1;
    }
    Some(agreed)
}

} // verus!
