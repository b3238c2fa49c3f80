//! Tokens, and the pairing of their brackets.

use vstd::prelude::*;

use crate::marker::PositionMarker;
use crate::text::same_text;

verus! {

/// A token of the source.
#[derive(Debug)]
pub struct Token {
    pub class_name: String,
    pub raw: String,
    pub instance_types: Vec<String>,
    pub class_types: Vec<String>,
    pub code: bool,
    pub meta: bool,
    /// The place of the bracket that this one pairs with.
    pub matching_bracket_idx: Option<usize>,
    pub pos_marker: Option<PositionMarker>,
}

/// The mathematical form of [`Token`].
#[verifier::ext_equal]
pub struct TokenView {
    pub class_name: Seq<char>,
    pub raw: Seq<char>,
    pub instance_types: Seq<Seq<char>>,
    pub class_types: Seq<Seq<char>>,
    pub code: bool,
    pub meta: bool,
    pub matching_bracket_idx: Option<usize>,
    pub marker: Option<PositionMarker>,
}

impl Token {
    /// The mathematical form.
    pub open spec fn view(self) -> TokenView {
        TokenView {
            class_name: self.class_name@,
            raw: self.raw@,
            instance_types: crate::text::texts(self.instance_types@),
            class_types: crate::text::texts(self.class_types@),
            code: self.code,
            meta: self.meta,
            matching_bracket_idx: self.matching_bracket_idx,
            marker: self.pos_marker,
        }
    }

    /// The mathematical forms of a list.
    pub open spec fn views(list: Seq<Token>) -> Seq<TokenView> {
        Seq::new(list.len(), |i: int| list[i]@)
    }

    /// A token made from a leaf of a tree; it has no position and no pair yet.
    pub fn synthetic_leaf(
        raw: String,
        instance_types: Vec<String>,
        class_types: Vec<String>,
        is_code: bool,
        is_meta: bool,
    ) -> (r: Token)
        ensures
            r@ == TokenView::synthetic(
                raw@,
                crate::text::texts(instance_types@),
                crate::text::texts(class_types@),
                is_code,
                is_meta,
            ),
    {
        Token {
            class_name: "RawSegment".to_owned(),
            raw,
            instance_types,
            class_types,
            code: is_code,
            meta: is_meta,
            matching_bracket_idx: None,
            pos_marker: None,
        }
    }

    /// Whether the token is code.
    pub fn is_code(&self) -> (r: bool)
        ensures
            r == self@.code,
    {
        self.code
    }

    /// The text of the token.
    pub fn raw(&self) -> (r: &str)
        ensures
            r@ == self@.raw,
    {
        self.raw.as_str()
    }

    /// The printed form: class, position and escaped text. `place` is the
    /// printed form of the token's position; a token without one prints `?`.
    pub fn to_text(&self, place: &str) -> (r: String)
        ensures
            r@ == TokenView::printed(
                self@.class_name,
                if self@.marker is Some {
                    place@
                } else {
                    "?"@
                },
                crate::text::escaped(self@.raw),
            ),
    {
        let escaped = crate::text::escape_text(self.raw.as_str());
        let place = if self.pos_marker.is_some() {
            place
        } else {
            "?"
        };
        token_text(self.class_name.as_str(), place, escaped.as_str())
    }
}

/// The printed form of a token from its parts.
pub fn token_text(class_name: &str, place: &str, escaped: &str) -> (r: String)
    ensures
        r@ == TokenView::printed(class_name@, place@, escaped@),
{
    let mut s = String::new();
    s.push_str("<");
    s.push_str(class_name);
    s.push_str(": (");
    s.push_str(place);
    s.push_str(") '");
    s.push_str(escaped);
    s.push_str("'>");
    assert(s@ =~= TokenView::printed(class_name@, place@, escaped@));
    s
}

impl TokenView {
    /// A token made from a leaf of a tree.
    pub open spec fn synthetic(
        raw: Seq<char>,
        instance_types: Seq<Seq<char>>,
        class_types: Seq<Seq<char>>,
        code: bool,
        meta: bool,
    ) -> TokenView {
        TokenView {
            class_name: "RawSegment"@,
            raw,
            instance_types,
            class_types,
            code,
            meta,
            matching_bracket_idx: None,
            marker: None,
        }
    }

    /// The printed form from class, position and escaped text.
    pub open spec fn printed(class_name: Seq<char>, place: Seq<char>, escaped: Seq<char>) -> Seq<
        char,
    > {
        "<"@ + class_name + ": ("@ + place + ") '"@ + escaped + "'>"@
    }

    /// The bracket that the token opens.
    pub open spec fn opens(self) -> Option<char> {
        if !self.code {
            None
        } else if self.raw == "("@ {
            Some('(')
        } else if self.raw == "["@ {
            Some('[')
        } else if self.raw == "{"@ {
            Some('{')
        } else {
            None
        }
    }

    /// The bracket that the token closes.
    pub open spec fn closes(self) -> Option<char> {
        if !self.code {
            None
        } else if self.raw == ")"@ {
            Some('(')
        } else if self.raw == "]"@ {
            Some('[')
        } else if self.raw == "}"@ {
            Some('{')
        } else {
            None
        }
    }
}

/// The state of the bracket scan: the open brackets with their places, and the
/// tokens with the pairs found.
#[verifier::ext_equal]
pub struct BracketScan {
    pub open: Seq<(usize, char)>,
    pub tokens: Seq<TokenView>,
}

/// The last place of an open bracket of the kind.
pub open spec fn last_open(open: Seq<(usize, char)>, kind: char) -> Option<int>
    decreases open.len(),
{
    if open.len() == 0 {
        None
    } else if open.last().1 == kind {
        Some(open.len() - 1)
    } else {
        last_open(open.drop_last(), kind)
    }
}

impl BracketScan {
    /// The scan of the first `n` tokens. Only code pairs; a closing bracket
    /// pairs with the last open one of its kind, and stays alone where there is
    /// none.
    pub open spec fn of(tokens: Seq<TokenView>, n: int) -> BracketScan
        decreases n,
    {
        if n <= 0 {
            BracketScan { open: Seq::empty(), tokens }
        } else {
            let s = BracketScan::of(tokens, n - 1);
            let i = (n - 1) as usize;
            let t = tokens[n - 1];
            match (t.opens(), t.closes()) {
                (Some(kind), _) => BracketScan { open: s.open.push((i, kind)), ..s },
                (None, Some(kind)) => match last_open(s.open, kind) {
                    Some(at) => {
                        let j = s.open[at].0;
                        BracketScan {
                            open: s.open.remove(at),
                            tokens: s.tokens.update(
                                j as int,
                                TokenView {
                                    matching_bracket_idx: Some(i),
                                    ..s.tokens[j as int]
                                },
                            ).update(
                                i as int,
                                TokenView {
                                    matching_bracket_idx: Some(j),
                                    ..s.tokens[i as int]
                                },
                            ),
                        }
                    },
                    None => s,
                },
                (None, None) => s,
            }
        }
    }

    /// The tokens with their brackets paired.
    pub open spec fn paired(tokens: Seq<TokenView>) -> Seq<TokenView> {
        BracketScan::of(tokens, tokens.len() as int).tokens
    }

    /// What holds along the scan.
    spec fn ok(self, tokens: Seq<TokenView>, n: int) -> bool {
        &&& self.tokens.len() == tokens.len()
        &&& forall|i: int|
            0 <= i < tokens.len() ==> (#[trigger] self.tokens[i]) == (TokenView {
                matching_bracket_idx: self.tokens[i].matching_bracket_idx,
                ..tokens[i]
            })
        &&& forall|a: int|
            0 <= a < self.open.len() ==> (#[trigger] self.open[a]).0 < n
                && tokens[self.open[a].0 as int].opens() == Some(self.open[a].1)
        &&& forall|a: int, b: int|
            0 <= a < b < self.open.len() ==> (#[trigger] self.open[a]).0 < (
            #[trigger] self.open[b]).0
    }
}

proof fn last_open_facts(open: Seq<(usize, char)>, kind: char)
    ensures
        match last_open(open, kind) {
            Some(at) => 0 <= at < open.len() && open[at].1 == kind && forall|b: int|
                at < b < open.len() ==> (#[trigger] open[b]).1 != kind,
            None => forall|b: int| 0 <= b < open.len() ==> (#[trigger] open[b]).1 != kind,
        },
    decreases open.len(),
{
    if open.len() > 0 && open.last().1 != kind {
        last_open_facts(open.drop_last(), kind);
        assert forall|b: int| 0 <= b < open.len() - 1 implies open.drop_last()[b] == open[b] by {}
    }
}

proof fn scan_ok(tokens: Seq<TokenView>, n: int)
    requires
        0 <= n <= tokens.len() <= usize::MAX,
    ensures
        BracketScan::of(tokens, n).ok(tokens, n),
    decreases n,
{
    if n > 0 {
        scan_ok(tokens, n - 1);
        let s = BracketScan::of(tokens, n - 1);
        let t = tokens[n - 1];
        if let (None, Some(kind)) = (t.opens(), t.closes()) {
            last_open_facts(s.open, kind);
            if let Some(at) = last_open(s.open, kind) {
                let r = s.open.remove(at);
                assert forall|a: int| 0 <= a < r.len() implies r[a] == s.open[if a < at {
                    a
                } else {
                    a + 1
                }] by {}
            }
        }
    }
}

/// Pairs the brackets of the tokens: each of a pair gets the place of the other.
pub fn compute_bracket_pairs(tokens: &mut Vec<Token>)
    ensures
        Token::views(final(tokens)@) == BracketScan::paired(Token::views(old(tokens)@)),
{
    let ghost views = Token::views(tokens@);
    let mut open: Vec<(usize, char)> = Vec::new();
    let n: usize = tokens.len();
    assert(open@ =~= Seq::empty());
    for idx in 0..n
        invariant
            n == tokens@.len(),
            views.len() == n,
            (BracketScan { open: open@, tokens: Token::views(tokens@) }) == BracketScan::of(
                views,
                idx as int,
            ),
    {
        proof {
            scan_ok(views, idx as int);
        }
        let ghost s = BracketScan::of(views, idx as int);
        assert(s.tokens[idx as int] == tokens@[idx as int]@);
        if tokens[idx].is_code() {
            let raw = tokens[idx].raw();
            let opened: Option<char> = if same_text(raw, "(") {
                Some('(')
            } else if same_text(raw, "[") {
                Some('[')
            } else if same_text(raw, "{") {
                Some('{')
            } else {
                None
            };
            let closed: Option<char> = if same_text(raw, ")") {
                Some('(')
            } else if same_text(raw, "]") {
                Some('[')
            } else if same_text(raw, "}") {
                Some('{')
            } else {
                None
            };
            assert(opened == views[idx as int].opens());
            assert(closed == views[idx as int].closes());
            if let Some(kind) = opened {
                open.push((idx, kind));
            } else if let Some(kind) = closed {
                if let Some(at) = find_open(&open, kind) {
                    let (j, _) = open.remove(at);
                    assert(s.open[at as int].0 == j);
                    tokens[j].matching_bracket_idx = Some(idx);
                    tokens[idx].matching_bracket_idx = Some(j);
                    assert(Token::views(tokens@) =~= BracketScan::of(views, idx + 1).tokens);
                }
            }
        }
    }
}

/// The last place of an open bracket of the kind.
fn find_open(open: &Vec<(usize, char)>, kind: char) -> (r: Option<usize>)
    ensures
        match r {
            Some(at) => last_open(open@, kind) == Some(at as int) && at < open@.len(),
            None => last_open(open@, kind) is None,
        },
{
    let mut n: usize = open.len();
    assert(open@.take(n as int) =~= open@);
    while n > 0
        invariant
            n <= open@.len(),
            last_open(open@, kind) == last_open(open@.take(n as int), kind),
        decreases n,
    {
        if open[n - 1].1 == kind {
            return Some(n - 1);
        }
        assert(open@.take(n as int).drop_last() =~= open@.take(n - 1));
        n -= 1;
    }
    None
}

/// Pairs are mutual: where brackets were unpaired before, a bracket that pairs
/// with another is paired with by it; one opens and the later one closes, and
/// they are of one kind.
pub proof fn pairs_are_mutual(tokens: Seq<TokenView>, i: int)
    requires
        tokens.len() <= usize::MAX,
        forall|k: int| 0 <= k < tokens.len() ==> (#[trigger] tokens[k]).matching_bracket_idx is None,
        0 <= i < tokens.len(),
        BracketScan::paired(tokens)[i].matching_bracket_idx is Some,
    ensures
        ({
            let p = BracketScan::paired(tokens);
            let j = p[i].matching_bracket_idx->0;
            &&& j < tokens.len()
            &&& p[j as int].matching_bracket_idx == Some(i as usize)
            &&& i < j ==> tokens[i].opens() is Some && tokens[i].opens() == tokens[j as
                int].closes()
            &&& j < i ==> tokens[j as int].opens() is Some && tokens[j as int].opens()
                == tokens[i].closes()
            &&& i != j
        }),
{
    scan_mutual(tokens, tokens.len() as int);
    let p = BracketScan::paired(tokens);
    assert(mutual_at(tokens, p, i));
}

/// The token at `i` is unpaired or mutually paired.
spec fn mutual_at(tokens: Seq<TokenView>, p: Seq<TokenView>, i: int) -> bool {
    p[i].matching_bracket_idx is Some ==> {
        let j = p[i].matching_bracket_idx->0;
        &&& j < tokens.len()
        &&& p[j as int].matching_bracket_idx == Some(i as usize)
        &&& i < j ==> tokens[i].opens() is Some && tokens[i].opens() == tokens[j as int].closes()
        &&& j < i ==> tokens[j as int].opens() is Some && tokens[j as int].opens()
            == tokens[i].closes()
        &&& i != j
    }
}

proof fn scan_mutual(tokens: Seq<TokenView>, n: int)
    requires
        0 <= n <= tokens.len() <= usize::MAX,
        forall|k: int| 0 <= k < tokens.len() ==> (#[trigger] tokens[k]).matching_bracket_idx is None,
    ensures
        ({
            let s = BracketScan::of(tokens, n);
            &&& forall|i: int|
                0 <= i < tokens.len() ==> #[trigger] mutual_at(tokens, s.tokens, i)
            &&& forall|i: int|
                n <= i < tokens.len() ==> (#[trigger] s.tokens[i]).matching_bracket_idx is None
            &&& forall|a: int|
                0 <= a < s.open.len() ==> s.tokens[(
                #[trigger] s.open[a]).0 as int].matching_bracket_idx is None
        }),
    decreases n,
{
    scan_ok(tokens, n);
    if n > 0 {
        scan_mutual(tokens, n - 1);
        scan_ok(tokens, n - 1);
        let q = BracketScan::of(tokens, n - 1);
        let s = BracketScan::of(tokens, n);
        let t = tokens[n - 1];
        if let (None, Some(kind)) = (t.opens(), t.closes()) {
            last_open_facts(q.open, kind);
            if let Some(at) = last_open(q.open, kind) {
                let j = q.open[at].0 as int;
                assert(q.tokens[j].matching_bracket_idx is None);
                assert(q.tokens[n - 1].matching_bracket_idx is None);
                assert forall|i: int| 0 <= i < tokens.len() implies #[trigger] mutual_at(
                    tokens,
                    s.tokens,
                    i,
                ) by {
                    assert(mutual_at(tokens, q.tokens, i));
                    if i != j && i != n - 1 && q.tokens[i].matching_bracket_idx is Some {
                        let m = q.tokens[i].matching_bracket_idx->0;
                        assert(m != j && m != n - 1);
                    }
                }
                assert forall|a: int| 0 <= a < s.open.len() implies s.tokens[(
                #[trigger] s.open[a]).0 as int].matching_bracket_idx is None by {
                    let b = if a < at {
                        a
                    } else {
                        a + 1
                    };
                    assert(s.open[a] == q.open[b]);
                    assert(q.open[b].0 != j);
                }
            }
        } else {
            assert forall|i: int| 0 <= i < tokens.len() implies #[trigger] mutual_at(
                tokens,
                s.tokens,
                i,
            ) by {
                assert(mutual_at(tokens, q.tokens, i));
            }
        }
        if !(t.opens() is None && t.closes() is Some && last_open(q.open, t.closes()->0) is Some) {
            assert forall|i: int| 0 <= i < tokens.len() implies #[trigger] mutual_at(
                tokens,
                s.tokens,
                i,
            ) by {
                assert(mutual_at(tokens, q.tokens, i));
            }
        }
    } else {
        assert forall|i: int| 0 <= i < tokens.len() implies #[trigger] mutual_at(
            tokens,
            BracketScan::of(tokens, n).tokens,
            i,
        ) by {
            assert(tokens[i].matching_bracket_idx is None);
        }
    }
}

/// An opening bracket before a closing one of its kind, where the closing one is alone
/// or pairs with one further back, has been closed in between.
spec fn closed_before(tokens: Seq<TokenView>, p: Seq<TokenView>, k: int, i: int) -> bool {
    tokens[i].closes() is Some && tokens[k].opens() == tokens[i].closes() && (
    p[i].matching_bracket_idx is None || p[i].matching_bracket_idx->0 < k) ==> {
        &&& p[k].matching_bracket_idx is Some
        &&& k < p[k].matching_bracket_idx->0 < i
    }
}

/// Whether every opening bracket before `n` is paired or still open.
spec fn all_open_kept(tokens: Seq<TokenView>, s: BracketScan, n: int) -> bool {
    forall|k: int|
        0 <= k < n && (#[trigger] tokens[k]).opens() is Some
            && s.tokens[k].matching_bracket_idx is None ==> exists|a: int|
            0 <= a < s.open.len() && (#[trigger] s.open[a]).0 == k
}

proof fn opens_or_closes(t: TokenView)
    ensures
        t.opens() is Some ==> t.closes() is None,
{
    reveal_strlit("(");
    reveal_strlit("[");
    reveal_strlit("{");
    reveal_strlit(")");
    reveal_strlit("]");
    reveal_strlit("}");
    assert("("@[0] == '(' && "["@[0] == '[' && "{"@[0] == '{');
    assert(")"@[0] == ')' && "]"@[0] == ']' && "}"@[0] == '}');
}

proof fn scan_nests(tokens: Seq<TokenView>, n: int)
    requires
        0 <= n <= tokens.len() <= usize::MAX,
        forall|k: int| 0 <= k < tokens.len() ==> (#[trigger] tokens[k]).matching_bracket_idx is None,
    ensures
        all_open_kept(tokens, BracketScan::of(tokens, n), n),
        forall|k: int, i: int|
            0 <= k < i < n ==> #[trigger] closed_before(
                tokens,
                BracketScan::of(tokens, n).tokens,
                k,
                i,
            ),
    decreases n,
{
    if n > 0 {
        scan_nests(tokens, n - 1);
        scan_mutual(tokens, n - 1);
        scan_ok(tokens, n - 1);
        let q = BracketScan::of(tokens, n - 1);
        let s = BracketScan::of(tokens, n);
        let t = tokens[n - 1];
        opens_or_closes(t);
        let closing = t.opens() is None && t.closes() is Some;
        if closing {
            last_open_facts(q.open, t.closes()->0);
        }
        let pairs = closing && last_open(q.open, t.closes()->0) is Some;
        let at = if pairs {
            last_open(q.open, t.closes()->0)->0
        } else {
            0
        };
        let j = if pairs {
            q.open[at].0 as int
        } else {
            -1
        };
        // Openers that are not paired are still open.
        assert forall|k: int|
            0 <= k < n && (#[trigger] tokens[k]).opens() is Some
                && s.tokens[k].matching_bracket_idx is None implies exists|a: int|
            0 <= a < s.open.len() && (#[trigger] s.open[a]).0 == k by {
            if k == n - 1 {
                assert(s.open[s.open.len() - 1].0 == k);
            } else {
                assert(q.tokens[k].matching_bracket_idx is None);
                let a = choose|a: int| 0 <= a < q.open.len() && (#[trigger] q.open[a]).0 == k;
                if pairs {
                    assert(a != at);
                    let b = if a < at {
                        a
                    } else {
                        a - 1
                    };
                    assert(s.open[b] == q.open[a]);
                } else {
                    assert(s.open[a] == q.open[a]);
                }
            }
        }
        assert forall|k: int, i: int| 0 <= k < i < n implies #[trigger] closed_before(
            tokens,
            s.tokens,
            k,
            i,
        ) by {
            if i < n - 1 {
                assert(closed_before(tokens, q.tokens, k, i));
                opens_or_closes(tokens[i]);
                if pairs {
                    assert(tokens[j].opens() is Some);
                    assert(s.tokens[i].matching_bracket_idx == q.tokens[i].matching_bracket_idx
                        || i == j);
                }
            } else if tokens[i].closes() is Some && tokens[k].opens() == tokens[i].closes() && (
            s.tokens[i].matching_bracket_idx is None || s.tokens[i].matching_bracket_idx->0 < k) {
                opens_or_closes(tokens[k]);
                if q.tokens[k].matching_bracket_idx is None {
                    let a = choose|a: int| 0 <= a < q.open.len() && (#[trigger] q.open[a]).0 == k;
                    assert(q.open[a].1 == t.closes()->0);
                    assert(pairs);
                    assert(a <= at);
                    if a < at {
                        assert(q.open[a].0 < q.open[at].0);
                    }
                } else {
                    assert(mutual_at(tokens, q.tokens, k));
                    let m = q.tokens[k].matching_bracket_idx->0;
                    assert(q.tokens[m as int].matching_bracket_idx is Some);
                    assert(m < n - 1);
                    assert(k != j);
                    assert(s.tokens[k].matching_bracket_idx == Some(m));
                }
            }
        }
    }
}

/// A closing bracket pairs with the last open one of its kind: an opening bracket of the
/// kind that stands before it, and behind the one it pairs with if it pairs, has been
/// closed in between.
pub proof fn pairs_with_the_last_open(tokens: Seq<TokenView>, k: int, i: int)
    requires
        tokens.len() <= usize::MAX,
        forall|m: int| 0 <= m < tokens.len() ==> (#[trigger] tokens[m]).matching_bracket_idx is None,
        0 <= k < i < tokens.len(),
        tokens[i].closes() is Some,
        tokens[k].opens() == tokens[i].closes(),
        ({
            let p = BracketScan::paired(tokens);
            p[i].matching_bracket_idx is None || p[i].matching_bracket_idx->0 < k
        }),
    ensures
        ({
            let p = BracketScan::paired(tokens);
            &&& p[k].matching_bracket_idx is Some
            &&& k < p[k].matching_bracket_idx->0 < i
        }),
{
    scan_nests(tokens, tokens.len() as int);
    assert(closed_before(tokens, BracketScan::paired(tokens), k, i));
}

/// Pairing changes nothing but the pairs.
pub proof fn pairing_keeps_tokens(tokens: Seq<TokenView>, i: int)
    requires
        tokens.len() <= usize::MAX,
        0 <= i < tokens.len(),
    ensures
        ({
            let p = BracketScan::paired(tokens);
            &&& p.len() == tokens.len()
            &&& p[i].class_name == tokens[i].class_name
            &&& p[i].raw == tokens[i].raw
            &&& p[i].instance_types == tokens[i].instance_types
            &&& p[i].class_types == tokens[i].class_types
            &&& p[i].code == tokens[i].code
            &&& p[i].meta == tokens[i].meta
            &&& p[i].marker == tokens[i].marker
        }),
{
    scan_ok(tokens, tokens.len() as int);
}

/// Two tokens pair just where both are code, and their texts are an opening and a
/// closing round, square or curly bracket.
pub proof fn two_brackets(a: TokenView, b: TokenView)
    requires
        a.matching_bracket_idx is None,
        b.matching_bracket_idx is None,
    ensures
        ({
            let p = BracketScan::paired(seq![a, b]);
            let fit = a.code && b.code && (a.raw == "("@ && b.raw == ")"@ || a.raw == "["@
                && b.raw == "]"@ || a.raw == "{"@ && b.raw == "}"@);
            &&& fit ==> p[0].matching_bracket_idx == Some(1usize) && p[1].matching_bracket_idx
                == Some(0usize)
            &&& !fit ==> p[0].matching_bracket_idx is None && p[1].matching_bracket_idx is None
        }),
{
    reveal_strlit("(");
    reveal_strlit("[");
    reveal_strlit("{");
    reveal_strlit(")");
    reveal_strlit("]");
    reveal_strlit("}");
    assert("("@[0] == '(' && "["@[0] == '[' && "{"@[0] == '{');
    assert(")"@[0] == ')' && "]"@[0] == ']' && "}"@[0] == '}');
    let tokens = seq![a, b];
    let zero = BracketScan::of(tokens, 0);
    let one = BracketScan::of(tokens, 1);
    let two = BracketScan::of(tokens, 2);
    opens_or_closes(a);
    opens_or_closes(b);
    assert(zero.open =~= Seq::empty());
    if a.closes() is Some {
        assert(last_open(zero.open, a.closes()->0) is None);
    }
    assert(one.tokens == tokens);
    if b.closes() is Some {
        last_open_facts(one.open, b.closes()->0);
    }
    if a.opens() is Some {
        assert(one.open =~= seq![(0usize, a.opens()->0)]);
    } else {
        assert(one.open =~= Seq::empty());
    }
}

} // verus!
