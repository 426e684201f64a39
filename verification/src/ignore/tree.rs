//! Segment patterns and the recursive ignore-rule tree.
//!
//! A raw segment string compiles into a sequence of tokens ([`SegToken`] in
//! specifications, [`IgnoreMatchPatternType`] in executable code). Whole rule
//! strings are inserted into an [`IgnoreTreeNode`], which holds one list of
//! whitelist (include) rules and one of exclude rules per level of the path.

use vstd::prelude::*;

verus! {

/// One token of a compiled segment pattern: either a wildcard, which stands
/// for any substring of the segment (possibly empty), or a literal piece of
/// text that must occur verbatim.
pub enum IgnoreMatchPatternType {
    Wildcard,
    Strict(String),
}

/// The mathematical form of a pattern token.
pub enum SegToken {
    Wildcard,
    Strict(Seq<char>),
}

impl View for IgnoreMatchPatternType {
    type V = SegToken;

    open spec fn view(&self) -> SegToken {
        match self {
            IgnoreMatchPatternType::Wildcard => SegToken::Wildcard,
            IgnoreMatchPatternType::Strict(s) => SegToken::Strict(s@),
        }
    }
}

impl DeepView for IgnoreMatchPatternType {
    type V = SegToken;

    open spec fn deep_view(&self) -> SegToken {
        self.view()
    }
}

/// What compiling a raw segment string yields: runs of `*` collapse to a
/// single wildcard token, and maximal runs of other characters become one
/// literal token each.
pub open spec fn compile_spec(s: Seq<char>) -> Seq<SegToken>
    decreases s.len(),
{
    if s.len() == 0 {
        Seq::empty()
    } else {
        let prev = compile_spec(s.drop_last());
        if s.last() == '*' {
            if prev.len() > 0 && prev.last() is Wildcard {
                prev
            } else {
                prev.push(SegToken::Wildcard)
            }
        } else {
            if prev.len() > 0 && prev.last() is Strict {
                prev.drop_last().push(SegToken::Strict(prev.last()->Strict_0.push(s.last())))
            } else {
                prev.push(SegToken::Strict(seq![s.last()]))
            }
        }
    }
}

/// The position of the first occurrence of `part` in `target` at or after
/// `from`, if any.
pub open spec fn find_from(target: Seq<char>, part: Seq<char>, from: int) -> Option<int>
    decreases target.len() - from,
{
    if from < 0 || from + part.len() > target.len() {
        Option::None
    } else if target.subrange(from, from + part.len()) =~= part {
        Option::Some(from)
    } else {
        find_from(target, part, from + 1)
    }
}

/// The left-to-right scan that matches a token sequence against a segment.
/// `cursor` is the next unread position of `target`; `pending` records
/// whether a wildcard is waiting to absorb characters.
pub open spec fn seg_scan(toks: Seq<SegToken>, target: Seq<char>, cursor: int, pending: bool) -> bool
    decreases toks.len(),
{
    if toks.len() == 0 {
        if pending {
            true
        } else {
            cursor == target.len()
        }
    } else {
        match toks[0] {
            SegToken::Wildcard => seg_scan(toks.drop_first(), target, cursor, true),
            SegToken::Strict(part) => {
                if pending {
                    match find_from(target, part, cursor) {
                        Option::Some(j) => seg_scan(toks.drop_first(), target, j + part.len(), false),
                        Option::None => false,
                    }
                } else {
                    if cursor + part.len() <= target.len() && target.subrange(
                        cursor,
                        cursor + part.len(),
                    ) =~= part {
                        seg_scan(toks.drop_first(), target, cursor + part.len(), false)
                    } else {
                        false
                    }
                }
            },
        }
    }
}

/// Whether a compiled token sequence matches a whole segment.
pub open spec fn seg_match(toks: Seq<SegToken>, target: Seq<char>) -> bool {
    seg_scan(toks, target, 0, false)
}

/// An empty token sequence matches only the empty segment.
pub proof fn lemma_empty_pattern_matches_only_empty(target: Seq<char>)
    ensures
        seg_match(compile_spec(Seq::empty()), target) <==> target.len() == 0,
{
}

/// A single wildcard token matches every segment.
pub proof fn lemma_star_matches_all(target: Seq<char>)
    ensures
        seg_match(compile_spec(seq!['*']), target),
{
    let s = seq!['*'];
    assert(s.drop_last() =~= Seq::<char>::empty());
    assert(compile_spec(Seq::<char>::empty()) =~= Seq::<SegToken>::empty());
    assert(compile_spec(s) =~= seq![SegToken::Wildcard]);
    assert(seq![SegToken::Wildcard].drop_first() =~= Seq::<SegToken>::empty());
    assert(seg_scan(Seq::<SegToken>::empty(), target, 0, true));
    assert(seq![SegToken::Wildcard][0] == SegToken::Wildcard);
    assert(seg_scan(seq![SegToken::Wildcard], target, 0, false));
}

/// The shape every compiled pattern has: no two adjacent wildcard tokens
/// (adjacent stars collapse to one), and no empty literal token.
pub proof fn lemma_compile_token_shape(s: Seq<char>)
    ensures
        forall|i: int|
            0 <= i < compile_spec(s).len() - 1 ==> !(#[trigger] compile_spec(s)[i] is Wildcard
                && compile_spec(s)[i + 1] is Wildcard),
        forall|i: int|
            0 <= i < compile_spec(s).len() ==> (compile_spec(s)[i] is Strict
                ==> compile_spec(s)[i]->Strict_0.len() > 0),
    decreases s.len(),
{
    if s.len() > 0 {
        lemma_compile_token_shape(s.drop_last());
    }
}

/// A compiled segment pattern, kept beside the raw string it came from.
pub struct IgnoreMatchPattern {
    original_pattern: String,
    pattern_part: Vec<IgnoreMatchPatternType>,
}

impl View for IgnoreMatchPattern {
    type V = Seq<char>;

    /// A pattern is identified by its raw text.
    closed spec fn view(&self) -> Seq<char> {
        self.original_pattern@
    }
}

impl IgnoreMatchPattern {
    /// The token sequence this pattern holds.
    pub closed spec fn tokens(&self) -> Seq<SegToken> {
        self.pattern_part.deep_view()
    }

    /// The tokens are exactly what the raw text compiles to.
    pub open spec fn wf(&self) -> bool {
        self.tokens() == compile_spec(self@)
    }

    /// Compiles a raw segment string into a pattern.
    pub fn new(pattern_part: String) -> (r: Self)
        ensures
            r@ == pattern_part@,
            r.wf(),
    {
        let raw: &str = pattern_part.as_str();
        let len = raw.unicode_len();
        let mut toks: Vec<IgnoreMatchPatternType> = Vec::new();
        let mut buf = String::new();
        let mut i: usize = 0;
        while i < len
            invariant
                i <= len,
                len == raw@.len(),
                raw@ == pattern_part@,
                buf@.len() == 0 ==> {
                    &&& toks.deep_view() == compile_spec(raw@.take(i as int))
                    &&& (toks.deep_view().len() == 0 || !(toks.deep_view().last() is Strict))
                },
                buf@.len() > 0 ==> toks.deep_view().push(SegToken::Strict(buf@)) == compile_spec(
                    raw@.take(i as int),
                ) && (toks.deep_view().len() == 0 || !(toks.deep_view().last() is Strict)),
            decreases len - i,
        {
            let ghost pre_toks = toks.deep_view();
            let ghost pre_buf = buf@;
            let c = raw.get_char(i);
            proof {
                assert(raw@.take(i + 1).drop_last() =~= raw@.take(i as int));
                assert(raw@.take(i + 1).last() == raw@[i as int]);
            }
            if c == '*' {
                if buf.unicode_len() > 0 {
                    toks.push(IgnoreMatchPatternType::Strict(buf));
                    toks.push(IgnoreMatchPatternType::Wildcard);
                    buf = String::new();
                    proof {
                        assert(toks.deep_view() =~= pre_toks.push(SegToken::Strict(pre_buf)).push(
                            SegToken::Wildcard,
                        ));
                    }
                } else {
                    let push_needed = toks.len() == 0 || !(matches!(
                        toks[toks.len() - 1],
                        IgnoreMatchPatternType::Wildcard
                    ));
                    if push_needed {
                        toks.push(IgnoreMatchPatternType::Wildcard);
                        proof {
                            assert(toks.deep_view() =~= pre_toks.push(SegToken::Wildcard));
                        }
                    }
                }
            } else {
                let piece = raw.substring_char(i, i + 1);
                proof {
                    assert(piece@ =~= seq![raw@[i as int]]);
                }
                buf.append(piece);
                proof {
                    assert(buf@ =~= pre_buf.push(raw@[i as int]));
                    if pre_buf.len() == 0 {
                        assert(compile_spec(raw@.take(i + 1)) == pre_toks.push(
                            SegToken::Strict(seq![raw@[i as int]]),
                        ));
                        assert(buf@ =~= seq![raw@[i as int]]);
                    } else {
                        let prev = compile_spec(raw@.take(i as int));
                        assert(prev == pre_toks.push(SegToken::Strict(pre_buf)));
                        assert(prev.last() == SegToken::Strict(pre_buf));
                        assert(prev.drop_last() =~= pre_toks);
                        assert(compile_spec(raw@.take(i + 1)) == pre_toks.push(
                            SegToken::Strict(pre_buf.push(raw@[i as int])),
                        ));
                    }
                }
            }
            i += 1;
        }
        proof {
            assert(raw@.take(len as int) =~= raw@);
        }
        if buf.unicode_len() > 0 {
            let ghost pre_toks = toks.deep_view();
            let ghost pre_buf = buf@;
            toks.push(IgnoreMatchPatternType::Strict(buf));
            proof {
                assert(toks.deep_view() =~= pre_toks.push(SegToken::Strict(pre_buf)));
            }
        }
        Self { original_pattern: pattern_part, pattern_part: toks }
    }

    /// The compiled token list.
    pub fn get_pattern(&self) -> (r: &Vec<IgnoreMatchPatternType>)
        ensures
            r.deep_view() == self.tokens(),
    {
        &self.pattern_part
    }

    /// The raw text the pattern was compiled from.
    pub fn get_original_pattern(&self) -> (r: &str)
        ensures
            r@ == self@,
    {
        self.original_pattern.as_str()
    }

    /// Whether this pattern matches the whole of `target`.
    pub fn match_pattern(&self, target: &str) -> (r: bool)
        ensures
            r == seg_match(self.tokens(), target@),
    {
        let ghost toks = self.tokens();
        proof {
            assert(toks.skip(0) =~= toks);
        }
        let tlen = target.unicode_len();
        let mut cursor: usize = 0;
        let mut pending = false;
        let n = self.pattern_part.len();
        let mut t: usize = 0;
        while t < n
            invariant
                t <= n,
                n == self.pattern_part.len(),
                toks == self.tokens(),
                toks.len() == n,
                tlen == target@.len(),
                cursor <= tlen,
                seg_scan(toks.skip(t as int), target@, cursor as int, pending) == seg_match(
                    toks,
                    target@,
                ),
            decreases n - t,
        {
            let ghost rest = toks.skip(t as int);
            proof {
                assert(rest[0] == toks[t as int]);
                assert(rest.drop_first() =~= toks.skip(t + 1));
            }
            match &self.pattern_part[t] {
                IgnoreMatchPatternType::Wildcard => {
                    pending = true;
                },
                IgnoreMatchPatternType::Strict(part) => {
                    let plen = part.as_str().unicode_len();
                    if pending {
                        match find_part(target, part.as_str(), cursor) {
                            Option::Some(j) => {
                                proof {
                                    lemma_find_from_in_range(target@, part@, cursor as int);
                                }
                                cursor = j + plen;
                                pending = false;
                            },
                            Option::None => {
                                return false;
                            },
                        }
                    } else {
                        if plen > tlen - cursor {
                            return false;
                        }
                        if !seg_eq_at(target, part.as_str(), cursor) {
                            return false;
                        }
                        cursor = cursor + plen;
                    }
                },
            }
            t += 1;
        }
        proof {
            assert(toks.skip(n as int) =~= Seq::<SegToken>::empty());
        }
        if pending {
            true
        } else {
            cursor == tlen
        }
    }
}

/// Every position `find_from` reports lies in range, with the whole of
/// `part` fitting after it.
pub proof fn lemma_find_from_in_range(target: Seq<char>, part: Seq<char>, from: int)
    requires
        from >= 0,
        find_from(target, part, from) is Some,
    ensures
        from <= find_from(target, part, from)->0,
        find_from(target, part, from)->0 + part.len() <= target.len(),
        target.subrange(
            find_from(target, part, from)->0,
            find_from(target, part, from)->0 + part.len(),
        ) =~= part,
    decreases target.len() - from,
{
    if from + part.len() > target.len() {
    } else if target.subrange(from, from + part.len()) =~= part {
    } else {
        lemma_find_from_in_range(target, part, from + 1);
    }
}

/// Whether `part` occurs in `target` exactly at position `at`.
fn seg_eq_at(target: &str, part: &str, at: usize) -> (r: bool)
    requires
        at + part@.len() <= target@.len(),
    ensures
        r == (target@.subrange(at as int, at + part@.len()) =~= part@),
{
    let plen = part.unicode_len();
    let tlen = target.unicode_len();
    let mut k: usize = 0;
    while k < plen
        invariant
            k <= plen,
            plen == part@.len(),
            tlen == target@.len(),
            at + plen <= tlen,
            forall|j: int| 0 <= j < k ==> target@[at + j] == part@[j],
        decreases plen - k,
    {
        if target.get_char(at + k) != part.get_char(k) {
            assert(target@.subrange(at as int, at + part@.len())[k as int] != part@[k as int]);
            return false;
        }
        k += 1;
    }
    assert(target@.subrange(at as int, at + part@.len()) =~= part@);
    true
}

/// The first occurrence of `part` in `target` at or after `from`, as
/// `find_from` describes it.
fn find_part(target: &str, part: &str, from: usize) -> (r: Option<usize>)
    ensures
        match r {
            Option::Some(j) => Option::Some(j as int) == find_from(target@, part@, from as int),
            Option::None => find_from(target@, part@, from as int) is None,
        },
{
    let tlen = target.unicode_len();
    let plen = part.unicode_len();
    if plen > tlen || from > tlen - plen {
        return Option::None;
    }
    let mut j = from;
    while j <= tlen - plen
        invariant
            from <= j,
            j <= tlen - plen + 1,
            plen <= tlen,
            tlen == target@.len(),
            plen == part@.len(),
            find_from(target@, part@, from as int) == find_from(target@, part@, j as int),
        decreases tlen - j,
    {
        if seg_eq_at(target, part, j) {
            return Option::Some(j);
        }
        j += 1;
    }
    Option::None
}

/// The views of a list of segment strings.
pub open spec fn strs_view(v: Seq<String>) -> Seq<Seq<char>> {
    Seq::new(v.len(), |i: int| v[i]@)
}

/// A path or rule string split on `/`. Splitting always yields one more
/// segment than there are separators; an empty string yields one empty
/// segment.
pub open spec fn split_path(s: Seq<char>) -> Seq<Seq<char>>
    decreases s.len(),
{
    if s.len() == 0 {
        seq![Seq::<char>::empty()]
    } else {
        let prev = split_path(s.drop_last());
        if s.last() == '/' {
            prev.push(Seq::empty())
        } else {
            prev.update(prev.len() - 1, prev.last().push(s.last()))
        }
    }
}

/// Splits a string into its `/`-separated segments.
fn split_path_exec(s: &str) -> (v: Vec<String>)
    ensures
        strs_view(v@) == split_path(s@),
        v@.len() >= 1,
{
    let slen = s.unicode_len();
    let mut v: Vec<String> = Vec::new();
    let mut buf = String::new();
    let mut i: usize = 0;
    while i < slen
        invariant
            i <= slen,
            slen == s@.len(),
            strs_view(v@).push(buf@) == split_path(s@.take(i as int)),
        decreases slen - i,
    {
        let ghost pre_v = strs_view(v@);
        let ghost pre_buf = buf@;
        proof {
            assert(s@.take(i + 1).drop_last() =~= s@.take(i as int));
            assert(s@.take(i + 1).last() == s@[i as int]);
        }
        let c = s.get_char(i);
        if c == '/' {
            v.push(buf);
            buf = String::new();
            proof {
                assert(strs_view(v@) =~= pre_v.push(pre_buf));
                assert(strs_view(v@).push(buf@) =~= split_path(s@.take(i as int)).push(
                    Seq::<char>::empty(),
                ));
            }
        } else {
            let piece = s.substring_char(i, i + 1);
            proof {
                assert(piece@ =~= seq![s@[i as int]]);
            }
            buf.append(piece);
            proof {
                let prev = split_path(s@.take(i as int));
                assert(buf@ =~= pre_buf.push(s@[i as int]));
                assert(prev == pre_v.push(pre_buf));
                assert(prev.len() == pre_v.len() + 1);
                assert(prev.last() == pre_buf);
                assert(strs_view(v@).push(buf@) =~= prev.update(
                    prev.len() - 1,
                    prev.last().push(s@[i as int]),
                ));
            }
        }
        i += 1;
    }
    proof {
        assert(s@.take(slen as int) =~= s@);
    }
    let ghost pre_v = strs_view(v@);
    let ghost pre_buf = buf@;
    v.push(buf);
    proof {
        assert(strs_view(v@) =~= pre_v.push(pre_buf));
    }
    v
}

/// The mathematical form of one rule pattern: `AnyDepth` stands for zero or
/// more whole path segments (a `**` rule component), `Seg` for a one-segment
/// glob identified by its raw text.
#[verifier::ext_equal]
pub enum PatModel {
    AnyDepth,
    Seg(Seq<char>),
}

/// The mathematical form of a rule tree node: two ordered lists of entries,
/// each a pattern paired with an optional child subtree. The child is present
/// exactly when the rule string had further segments after this one.
#[verifier::ext_equal]
pub struct NodeModel {
    pub includes: Seq<(PatModel, Option<NodeModel>)>,
    pub excludes: Seq<(PatModel, Option<NodeModel>)>,
}

/// The model of a freshly built node: no rules at all.
pub open spec fn empty_node() -> NodeModel {
    NodeModel { includes: Seq::empty(), excludes: Seq::empty() }
}

/// Whether one entry matches the remaining path `segs`.
///
/// A leaf `Seg` entry matches exactly the last segment; a leaf `AnyDepth`
/// entry matches any remainder. An entry with a child asks the child about
/// the tail, an `AnyDepth` entry with a child trying every depth.
pub open spec fn entry_matches(e: (PatModel, Option<NodeModel>), segs: Seq<Seq<char>>) -> bool
    decreases e, 0nat,
{
    match e.1 {
        Option::None => match e.0 {
            PatModel::AnyDepth => true,
            PatModel::Seg(raw) => segs.len() == 1 && seg_match(compile_spec(raw), segs[0]),
        },
        Option::Some(child) => match e.0 {
            PatModel::AnyDepth => keeps_at_some_depth(child, segs, 0),
            PatModel::Seg(raw) => segs.len() >= 2 && seg_match(compile_spec(raw), segs[0])
                && keeps(child, segs.drop_first()),
        },
    }
}

/// Whether any entry of `list` matches the remaining path.
pub open spec fn any_entry_matches(
    list: Seq<(PatModel, Option<NodeModel>)>,
    segs: Seq<Seq<char>>,
) -> bool
    decreases list, 0nat,
{
    if list.len() == 0 {
        false
    } else {
        entry_matches(list[0], segs) || any_entry_matches(list.drop_first(), segs)
    }
}

/// Whether the node keeps the remaining path: some include rule matches and
/// no exclude rule does. A node with no include rules keeps nothing.
pub open spec fn keeps(m: NodeModel, segs: Seq<Seq<char>>) -> bool
    decreases m, 0nat,
{
    any_entry_matches(m.includes, segs) && !any_entry_matches(m.excludes, segs)
}

/// Whether the node keeps the path left after dropping `from` or more leading
/// segments, for some choice of how many (but at least one segment must
/// remain).
pub open spec fn keeps_at_some_depth(m: NodeModel, segs: Seq<Seq<char>>, from: int) -> bool
    decreases m, segs.len() + 1 - from,
{
    if from < 0 || from >= segs.len() {
        false
    } else {
        keeps(m, segs.skip(from)) || keeps_at_some_depth(m, segs, from + 1)
    }
}

pub proof fn lemma_any_entry_matches(list: Seq<(PatModel, Option<NodeModel>)>, segs: Seq<Seq<char>>)
    ensures
        any_entry_matches(list, segs) <==> exists|i: int|
            0 <= i < list.len() && entry_matches(#[trigger] list[i], segs),
    decreases list.len(),
{
    if list.len() > 0 {
        lemma_any_entry_matches(list.drop_first(), segs);
        if entry_matches(list[0], segs) {
        } else if any_entry_matches(list.drop_first(), segs) {
            let i = choose|i: int|
                0 <= i < list.drop_first().len() && entry_matches(
                    #[trigger] list.drop_first()[i],
                    segs,
                );
            assert(list[i + 1] == list.drop_first()[i]);
        } else {
            assert forall|i: int| 0 <= i < list.len() implies !entry_matches(
                #[trigger] list[i],
                segs,
            ) by {
                if i > 0 {
                    assert(list[i] == list.drop_first()[i - 1]);
                }
            }
        }
    }
}

pub proof fn lemma_keeps_at_some_depth(m: NodeModel, segs: Seq<Seq<char>>, from: int)
    requires
        from >= 0,
    ensures
        keeps_at_some_depth(m, segs, from) <==> exists|k: int|
            from <= k < segs.len() && keeps(m, #[trigger] segs.skip(k)),
    decreases segs.len() + 1 - from,
{
    if from < segs.len() {
        lemma_keeps_at_some_depth(m, segs, from + 1);
    }
}

/// One component of a rule: either `**`, spanning any number of whole
/// segments, or a regular one-segment pattern.
pub enum IgnoreTreePattern {
    WildCardAll,
    Regular(IgnoreMatchPattern),
}

/// A node of the rule tree: the whitelist rules and the exclude rules that
/// apply at this depth, each entry owning the subtree for the rest of its
/// rule string, if any.
pub struct IgnoreTreeNode {
    ruleset: Vec<(IgnoreTreePattern, Option<IgnoreTreeNode>)>,
    exclude: Vec<(IgnoreTreePattern, Option<IgnoreTreeNode>)>,
}

/// The mathematical form of one rule component.
pub open spec fn pat_model(p: IgnoreTreePattern) -> PatModel {
    match p {
        IgnoreTreePattern::WildCardAll => PatModel::AnyDepth,
        IgnoreTreePattern::Regular(mp) => PatModel::Seg(mp@),
    }
}

/// The mathematical form of one rule entry.
pub closed spec fn entry_model(e: (IgnoreTreePattern, Option<IgnoreTreeNode>)) -> (
    PatModel,
    Option<NodeModel>,
)
    decreases e,
{
    (
        pat_model(e.0),
        match e.1 {
            Option::Some(c) => Option::Some(node_model(c)),
            Option::None => Option::None,
        },
    )
}

/// The mathematical form of a rule list.
pub closed spec fn entries_model(s: Seq<(IgnoreTreePattern, Option<IgnoreTreeNode>)>) -> Seq<
    (PatModel, Option<NodeModel>),
>
    decreases s,
{
    if s.len() == 0 {
        Seq::empty()
    } else {
        seq![entry_model(s[0])] + entries_model(s.drop_first())
    }
}

/// The mathematical form of a whole node.
pub closed spec fn node_model(n: IgnoreTreeNode) -> NodeModel
    decreases n,
{
    NodeModel { includes: entries_model(n.ruleset@), excludes: entries_model(n.exclude@) }
}

impl View for IgnoreTreeNode {
    type V = NodeModel;

    closed spec fn view(&self) -> NodeModel {
        node_model(*self)
    }
}

/// A rule component is well formed when its compiled tokens belong to its
/// raw text.
pub open spec fn pat_wf(p: IgnoreTreePattern) -> bool {
    match p {
        IgnoreTreePattern::WildCardAll => true,
        IgnoreTreePattern::Regular(mp) => mp.wf(),
    }
}

/// Well-formedness of one rule entry: its pattern and its subtree, if any.
pub closed spec fn entry_wf(e: (IgnoreTreePattern, Option<IgnoreTreeNode>)) -> bool
    decreases e,
{
    pat_wf(e.0) && match e.1 {
        Option::Some(c) => node_wf(c),
        Option::None => true,
    }
}

/// Well-formedness of a rule list.
pub closed spec fn entries_wf(s: Seq<(IgnoreTreePattern, Option<IgnoreTreeNode>)>) -> bool
    decreases s,
{
    if s.len() == 0 {
        true
    } else {
        entry_wf(s[0]) && entries_wf(s.drop_first())
    }
}

/// Well-formedness of a whole node.
pub closed spec fn node_wf(n: IgnoreTreeNode) -> bool
    decreases n,
{
    entries_wf(n.ruleset@) && entries_wf(n.exclude@)
}

pub proof fn lemma_entries_model_index(s: Seq<(IgnoreTreePattern, Option<IgnoreTreeNode>)>)
    ensures
        entries_model(s).len() == s.len(),
        forall|i: int| 0 <= i < s.len() ==> #[trigger] entries_model(s)[i] == entry_model(s[i]),
    decreases s.len(),
{
    if s.len() > 0 {
        lemma_entries_model_index(s.drop_first());
        assert forall|i: int| 0 <= i < s.len() implies #[trigger] entries_model(s)[i]
            == entry_model(s[i]) by {
            if i > 0 {
                assert(entries_model(s)[i] == entries_model(s.drop_first())[i - 1]);
                assert(s.drop_first()[i - 1] == s[i]);
            }
        }
    }
}

pub proof fn lemma_entries_wf_index(s: Seq<(IgnoreTreePattern, Option<IgnoreTreeNode>)>)
    ensures
        entries_wf(s) <==> forall|i: int| 0 <= i < s.len() ==> entry_wf(#[trigger] s[i]),
    decreases s.len(),
{
    if s.len() > 0 {
        lemma_entries_wf_index(s.drop_first());
        if entries_wf(s) {
            assert forall|i: int| 0 <= i < s.len() implies entry_wf(#[trigger] s[i]) by {
                if i > 0 {
                    assert(s[i] == s.drop_first()[i - 1]);
                }
            }
        } else {
            if entry_wf(s[0]) {
                let i = choose|i: int|
                    0 <= i < s.drop_first().len() && !entry_wf(#[trigger] s.drop_first()[i]);
                assert(s[i + 1] == s.drop_first()[i]);
            }
        }
    }
}

/// Whether the entry at `list[i]` matches the path suffix that starts at
/// segment `from`.
fn entry_match_at(
    e: &(IgnoreTreePattern, Option<IgnoreTreeNode>),
    segs: &Vec<String>,
    from: usize,
) -> (r: bool)
    requires
        entry_wf(*e),
        from < segs@.len(),
    ensures
        r == entry_matches(entry_model(*e), strs_view(segs@).skip(from as int)),
    decreases *e,
{
    let ghost suffix = strs_view(segs@).skip(from as int);
    proof {
        assert(suffix.len() == segs@.len() - from);
        assert(suffix[0] == strs_view(segs@)[from as int]);
        assert(suffix[0] == segs@[from as int]@);
    }
    let n = segs.len();
    let is_last = from == n - 1;
    match &e.1 {
        Option::None => {
            match &e.0 {
                IgnoreTreePattern::WildCardAll => true,
                IgnoreTreePattern::Regular(p) => {
                    if is_last {
                        p.match_pattern(segs[from].as_str())
                    } else {
                        false
                    }
                },
            }
        },
        Option::Some(child) => {
            match &e.0 {
                IgnoreTreePattern::Regular(p) => {
                    if is_last {
                        false
                    } else {
                        if p.match_pattern(segs[from].as_str()) {
                            let r = child.keeps_from(segs, from + 1);
                            proof {
                                assert(suffix.drop_first() =~= strs_view(segs@).skip(from + 1));
                            }
                            r
                        } else {
                            false
                        }
                    }
                },
                IgnoreTreePattern::WildCardAll => {
                    let ghost cm = node_model(*child);
                    let mut k = from;
                    while k < n
                        invariant
                            from <= k <= n,
                            n == segs@.len(),
                            from < n,
                            e.0 is WildCardAll,
                            e.1 == Option::Some(*child),
                            node_wf(*child),
                            cm == node_model(*child),
                            suffix == strs_view(segs@).skip(from as int),
                            forall|j: int|
                                from <= j < k ==> !keeps(cm, #[trigger] strs_view(segs@).skip(j)),
                        decreases n - k,
                    {
                        proof {
                            assert(decreases_to!(*e => e.1));
                            assert(decreases_to!(e.1 => e.1->0));
                            assert(e.1->0 == *child);
                            assert(decreases_to!(*e => *child));
                        }
                        if child.keeps_from(segs, k) {
                            proof {
                                lemma_keeps_at_some_depth(cm, suffix, 0);
                                assert(suffix.skip(k - from) =~= strs_view(segs@).skip(k as int));
                                assert(keeps(cm, suffix.skip(k - from)));
                            }
                            return true;
                        }
                        k += 1;
                    }
                    proof {
                        lemma_keeps_at_some_depth(cm, suffix, 0);
                        assert forall|j: int| 0 <= j < suffix.len() implies !keeps(
                            cm,
                            #[trigger] suffix.skip(j),
                        ) by {
                            assert(suffix.skip(j) =~= strs_view(segs@).skip(from + j));
                        }
                    }
                    false
                },
            }
        },
    }
}

/// Whether any entry of `list` matches the path suffix that starts at `from`.
fn list_any_match(
    list: &Vec<(IgnoreTreePattern, Option<IgnoreTreeNode>)>,
    segs: &Vec<String>,
    from: usize,
) -> (r: bool)
    requires
        entries_wf(list@),
        from < segs@.len(),
    ensures
        r == any_entry_matches(entries_model(list@), strs_view(segs@).skip(from as int)),
    decreases *list,
{
    let ghost m = entries_model(list@);
    let ghost suffix = strs_view(segs@).skip(from as int);
    let n = list.len();
    let mut i: usize = 0;
    while i < n
        invariant
            i <= n,
            n == list@.len(),
            entries_wf(list@),
            from < segs@.len(),
            m == entries_model(list@),
            suffix == strs_view(segs@).skip(from as int),
            forall|j: int| 0 <= j < i ==> !entry_matches(#[trigger] m[j], suffix),
        decreases n - i,
    {
        proof {
            lemma_entries_model_index(list@);
            lemma_entries_wf_index(list@);
        }
        if entry_match_at(&list[i], segs, from) {
            proof {
                lemma_any_entry_matches(m, suffix);
                assert(entry_matches(m[i as int], suffix));
            }
            return true;
        }
        i += 1;
    }
    proof {
        lemma_entries_model_index(list@);
        lemma_any_entry_matches(m, suffix);
    }
    false
}

impl IgnoreTreeNode {
    /// Well-formedness of the whole tree: every pattern in it carries the
    /// tokens of its own raw text.
    pub open spec fn wf(&self) -> bool {
        node_wf(*self)
    }

    /// Builds a node with no rules.
    pub fn new() -> (r: Self)
        ensures
            r@ == empty_node(),
            r.wf(),
    {
        let r = Self { ruleset: Vec::new(), exclude: Vec::new() };
        proof {
            assert(entries_model(r.ruleset@) =~= Seq::<(PatModel, Option<NodeModel>)>::empty());
            assert(entries_model(r.exclude@) =~= Seq::<(PatModel, Option<NodeModel>)>::empty());
        }
        r
    }

    /// Whether this tree keeps the candidate path `target`.
    pub fn match_pattern(&self, target: &str) -> (r: bool)
        requires
            self.wf(),
        ensures
            r == keeps(self@, split_path(target@)),
    {
        let segs = split_path_exec(target);
        proof {
            assert(strs_view(segs@).skip(0) =~= strs_view(segs@));
        }
        self.keeps_from(&segs, 0)
    }

    /// Whether this tree keeps the path suffix that starts at segment `from`.
    fn keeps_from(&self, segs: &Vec<String>, from: usize) -> (r: bool)
        requires
            self.wf(),
            from < segs@.len(),
        ensures
            r == keeps(self@, strs_view(segs@).skip(from as int)),
        decreases *self,
    {
        let inc = list_any_match(&self.ruleset, segs, from);
        if !inc {
            return false;
        }
        let exc = list_any_match(&self.exclude, segs, from);
        !exc
    }
}

/// Whether a rule component is the `**` marker.
pub open spec fn is_double_star(s: Seq<char>) -> bool {
    s.len() == 2 && s[0] == '*' && s[1] == '*'
}

/// The pattern a rule component stands for.
pub open spec fn seg_tag(s: Seq<char>) -> PatModel {
    if is_double_star(s) {
        PatModel::AnyDepth
    } else {
        PatModel::Seg(s)
    }
}

/// Whether an entry is a leaf carrying exactly this pattern.
pub open spec fn leaf_matches(e: (PatModel, Option<NodeModel>), tag: PatModel) -> bool {
    e.1 is None && e.0 == tag
}

/// Whether an entry carries this pattern together with a child subtree.
pub open spec fn child_matches(e: (PatModel, Option<NodeModel>), tag: PatModel) -> bool {
    e.1 is Some && e.0 == tag
}

/// The first leaf entry with this pattern at or after `from`, if any.
pub open spec fn find_leaf(
    list: Seq<(PatModel, Option<NodeModel>)>,
    tag: PatModel,
    from: int,
) -> Option<int>
    decreases list.len() - from,
{
    if from < 0 || from >= list.len() {
        Option::None
    } else if leaf_matches(list[from], tag) {
        Option::Some(from)
    } else {
        find_leaf(list, tag, from + 1)
    }
}

/// The first entry with this pattern and a child at or after `from`, if any.
pub open spec fn find_child(
    list: Seq<(PatModel, Option<NodeModel>)>,
    tag: PatModel,
    from: int,
) -> Option<int>
    decreases list.len() - from,
{
    if from < 0 || from >= list.len() {
        Option::None
    } else if child_matches(list[from], tag) {
        Option::Some(from)
    } else {
        find_child(list, tag, from + 1)
    }
}

pub proof fn lemma_find_leaf_spec(list: Seq<(PatModel, Option<NodeModel>)>, tag: PatModel, from: int)
    requires
        from >= 0,
    ensures
        find_leaf(list, tag, from) is Some ==> {
            &&& from <= find_leaf(list, tag, from)->0 < list.len()
            &&& leaf_matches(list[find_leaf(list, tag, from)->0], tag)
            &&& forall|k: int|
                from <= k < find_leaf(list, tag, from)->0 ==> !leaf_matches(
                    #[trigger] list[k],
                    tag,
                )
        },
        find_leaf(list, tag, from) is None ==> forall|k: int|
            from <= k < list.len() ==> !leaf_matches(#[trigger] list[k], tag),
    decreases list.len() - from,
{
    if from < list.len() && !leaf_matches(list[from], tag) {
        lemma_find_leaf_spec(list, tag, from + 1);
    }
}

pub proof fn lemma_find_child_spec(
    list: Seq<(PatModel, Option<NodeModel>)>,
    tag: PatModel,
    from: int,
)
    requires
        from >= 0,
    ensures
        find_child(list, tag, from) is Some ==> {
            &&& from <= find_child(list, tag, from)->0 < list.len()
            &&& child_matches(list[find_child(list, tag, from)->0], tag)
            &&& forall|k: int|
                from <= k < find_child(list, tag, from)->0 ==> !child_matches(
                    #[trigger] list[k],
                    tag,
                )
        },
        find_child(list, tag, from) is None ==> forall|k: int|
            from <= k < list.len() ==> !child_matches(#[trigger] list[k], tag),
    decreases list.len() - from,
{
    if from < list.len() && !child_matches(list[from], tag) {
        lemma_find_child_spec(list, tag, from + 1);
    }
}

/// Inserting one rule, given as its non-empty list of segments, into a rule
/// list. A rule of one segment becomes a leaf entry unless an equal leaf is
/// already there; a longer rule finds or creates the entry for its first
/// segment and carries the rest into that entry's child.
pub open spec fn insert_segs(
    list: Seq<(PatModel, Option<NodeModel>)>,
    segs: Seq<Seq<char>>,
) -> Seq<(PatModel, Option<NodeModel>)>
    decreases segs.len(), 0nat,
{
    if segs.len() == 0 {
        list
    } else {
        let tag = seg_tag(segs[0]);
        if segs.len() == 1 {
            match find_leaf(list, tag, 0) {
                Option::Some(_) => list,
                Option::None => list.push((tag, Option::None)),
            }
        } else {
            match find_child(list, tag, 0) {
                Option::Some(i) => list.update(
                    i,
                    (tag, Option::Some(node_insert(list[i].1->0, segs.drop_first()))),
                ),
                Option::None => list.push(
                    (tag, Option::Some(node_insert(empty_node(), segs.drop_first()))),
                ),
            }
        }
    }
}

/// Inserting one raw rule, given as its list of segments, into a node.
/// An empty rule is a no-op; a leading `!` on the first segment routes the
/// rule to the exclude list; anything else is a whitelist rule.
pub open spec fn node_insert(m: NodeModel, segs: Seq<Seq<char>>) -> NodeModel
    decreases segs.len(), 1nat,
{
    if segs.len() == 0 {
        m
    } else if segs.len() == 1 && segs[0].len() == 0 {
        m
    } else if segs[0].len() > 0 && segs[0][0] == '!' {
        NodeModel {
            includes: m.includes,
            excludes: insert_segs(m.excludes, segs.update(0, segs[0].drop_first())),
        }
    } else {
        NodeModel { includes: insert_segs(m.includes, segs), excludes: m.excludes }
    }
}

/// Whether two strings hold the same characters.
fn str_eq(a: &str, b: &str) -> (r: bool)
    ensures
        r == (a@ == b@),
{
    let al = a.unicode_len();
    let bl = b.unicode_len();
    if al != bl {
        return false;
    }
    let mut k: usize = 0;
    while k < al
        invariant
            k <= al,
            al == a@.len(),
            al == b@.len(),
            forall|j: int| 0 <= j < k ==> a@[j] == b@[j],
        decreases al - k,
    {
        if a.get_char(k) != b.get_char(k) {
            return false;
        }
        k += 1;
    }
    proof {
        assert(a@ =~= b@);
    }
    true
}

/// Inserts the rule whose segments are `segs[from..]`, with `head` standing
/// in for segment `from` (the caller may already have stripped a leading `!`
/// from it), into one rule list.
fn insert_into(
    list: &mut Vec<(IgnoreTreePattern, Option<IgnoreTreeNode>)>,
    head: &str,
    segs: &Vec<String>,
    from: usize,
)
    requires
        entries_wf(old(list)@),
        from < segs@.len(),
    ensures
        entries_wf(final(list)@),
        entries_model(final(list)@) == insert_segs(
            entries_model(old(list)@),
            strs_view(segs@).skip(from as int).update(0, head@),
        ),
    decreases segs@.len() - from, 0nat,
{
    let ghost m0 = entries_model(list@);
    let ghost esegs = strs_view(segs@).skip(from as int).update(0, head@);
    let ghost tag = seg_tag(head@);
    proof {
        assert(esegs.len() == segs@.len() - from);
        assert(esegs[0] == head@);
    }
    let n_segs = segs.len();
    let is_last = from == n_segs - 1;
    let hlen = head.unicode_len();
    let is_ds = hlen == 2 && head.get_char(0) == '*' && head.get_char(1) == '*';
    proof {
        assert(is_ds == is_double_star(head@));
    }
    let n = list.len();
    let mut i: usize = 0;
    if is_last {
        proof {
            assert(esegs.len() == 1);
        }
        while i < n
            invariant
                i <= n,
                n == list@.len(),
                entries_wf(list@),
                from < segs@.len(),
                m0 == entries_model(list@),
                list@ == old(list)@,
                esegs == strs_view(segs@).skip(from as int).update(0, head@),
                esegs.len() == 1,
                esegs[0] == head@,
                tag == seg_tag(head@),
                is_ds == is_double_star(head@),
                forall|k: int| 0 <= k < i ==> !leaf_matches(#[trigger] m0[k], tag),
            decreases n - i,
        {
            proof {
                lemma_entries_model_index(list@);
                lemma_entries_wf_index(list@);
            }
            let e = &list[i];
            let matched: bool = if e.1.is_none() {
                match &e.0 {
                    IgnoreTreePattern::WildCardAll => is_ds,
                    IgnoreTreePattern::Regular(p) => !is_ds && str_eq(
                        p.get_original_pattern(),
                        head,
                    ),
                }
            } else {
                false
            };
            proof {
                assert(m0[i as int] == entry_model(list@[i as int]));
                assert(matched == leaf_matches(m0[i as int], tag));
            }
            if matched {
                proof {
                    lemma_find_leaf_spec(m0, tag, 0);
                    assert(find_leaf(m0, tag, 0) is Some);
                }
                return ;
            }
            i += 1;
        }
        let newp: IgnoreTreePattern = if is_ds {
            IgnoreTreePattern::WildCardAll
        } else {
            IgnoreTreePattern::Regular(IgnoreMatchPattern::new(String::from_str(head)))
        };
        let ghost pre = list@;
        list.push((newp, Option::None));
        proof {
            lemma_entries_model_index(pre);
            lemma_find_leaf_spec(m0, tag, 0);
            if find_leaf(m0, tag, 0) is Some {
                let j = find_leaf(m0, tag, 0)->0;
                assert(!leaf_matches(m0[j], tag));
            }
            assert(find_leaf(m0, tag, 0) is None);
            lemma_entries_model_index(pre);
            lemma_entries_model_index(list@);
            assert(list@.len() == pre.len() + 1);
            assert(pat_model(newp) == tag);
            assert forall|k: int| 0 <= k < list@.len() implies #[trigger] entries_model(list@)[k]
                == m0.push((tag, Option::<NodeModel>::None))[k] by {
                if k < pre.len() {
                    assert(list@[k] == pre[k]);
                }
            }
            assert(entries_model(list@) =~= m0.push((tag, Option::None)));
            lemma_entries_wf_index(pre);
            lemma_entries_wf_index(list@);
            assert forall|k: int| 0 <= k < list@.len() implies entry_wf(#[trigger] list@[k]) by {
                if k < pre.len() {
                    assert(list@[k] == pre[k]);
                }
            }
        }
    } else {
        proof {
            assert(esegs.len() >= 2);
        }
        while i < n
            invariant
                i <= n,
                n == list@.len(),
                entries_wf(list@),
                from < segs@.len(),
                from + 1 < segs@.len(),
                !(from == n_segs - 1),
                n_segs == segs@.len(),
                m0 == entries_model(list@),
                list@ == old(list)@,
                esegs == strs_view(segs@).skip(from as int).update(0, head@),
                esegs.len() >= 2,
                esegs[0] == head@,
                tag == seg_tag(head@),
                is_ds == is_double_star(head@),
                forall|k: int| 0 <= k < i ==> !child_matches(#[trigger] m0[k], tag),
            decreases n - i,
        {
            proof {
                lemma_entries_model_index(list@);
                lemma_entries_wf_index(list@);
            }
            let e = &list[i];
            let matched: bool = if e.1.is_some() {
                match &e.0 {
                    IgnoreTreePattern::WildCardAll => is_ds,
                    IgnoreTreePattern::Regular(p) => !is_ds && str_eq(
                        p.get_original_pattern(),
                        head,
                    ),
                }
            } else {
                false
            };
            proof {
                assert(m0[i as int] == entry_model(list@[i as int]));
                assert(matched == child_matches(m0[i as int], tag));
            }
            if matched {
                let ghost pre = list@;
                let entry = list.remove(i);
                let (epat, echild) = entry;
                match echild {
                    Option::Some(mut child) => {
                        let ghost child0 = child;
                        child.add_segs(segs, from + 1);
                        let ghost newchild = child;
                        list.insert(i, (epat, Option::Some(child)));
                        proof {
                            lemma_find_child_spec(m0, tag, 0);
                            assert(find_child(m0, tag, 0) == Option::Some(i as int));
                            assert(list@ =~= pre.update(
                                i as int,
                                (epat, Option::Some(newchild)),
                            ));
                            lemma_entries_model_index(pre);
                            lemma_entries_model_index(list@);
                            assert(pre[i as int] == (epat, Option::Some(child0)));
                            assert(m0[i as int] == entry_model(pre[i as int]));
                            assert(m0[i as int].1->0 == node_model(child0));
                            assert(esegs.drop_first() =~= strs_view(segs@).skip(from + 1));
                            assert(node_model(newchild) == node_insert(
                                m0[i as int].1->0,
                                esegs.drop_first(),
                            ));
                            assert(pat_model(epat) == tag);
                            assert forall|k: int| 0 <= k < list@.len() implies
                                #[trigger] entries_model(list@)[k] == m0.update(
                                i as int,
                                (tag, Option::Some(node_model(newchild))),
                            )[k] by {
                                if k != i {
                                    assert(list@[k] == pre[k]);
                                }
                            }
                            assert(entries_model(list@) =~= m0.update(
                                i as int,
                                (tag, Option::Some(node_model(newchild))),
                            ));
                            assert(entries_model(list@) =~= insert_segs(m0, esegs));
                            lemma_entries_wf_index(pre);
                            lemma_entries_wf_index(list@);
                            assert forall|k: int| 0 <= k < list@.len() implies entry_wf(
                                #[trigger] list@[k],
                            ) by {
                                if k != i {
                                    assert(list@[k] == pre[k]);
                                }
                            }
                        }
                        return ;
                    },
                    Option::None => {
                        proof {
                            assert(false);
                        }
                        list.insert(i, (epat, Option::None));
                        return ;
                    },
                }
            }
            i += 1;
        }
        let mut child = IgnoreTreeNode::new();
        child.add_segs(segs, from + 1);
        let newp: IgnoreTreePattern = if is_ds {
            IgnoreTreePattern::WildCardAll
        } else {
            IgnoreTreePattern::Regular(IgnoreMatchPattern::new(String::from_str(head)))
        };
        let ghost pre = list@;
        list.push((newp, Option::Some(child)));
        proof {
            lemma_entries_model_index(pre);
            lemma_find_child_spec(m0, tag, 0);
            if find_child(m0, tag, 0) is Some {
                let j = find_child(m0, tag, 0)->0;
                assert(!child_matches(m0[j], tag));
            }
            assert(find_child(m0, tag, 0) is None);
            assert(esegs.drop_first() =~= strs_view(segs@).skip(from + 1));
            assert(node_model(child) == node_insert(empty_node(), esegs.drop_first()));
            lemma_entries_model_index(pre);
            lemma_entries_model_index(list@);
            assert(pat_model(newp) == tag);
            assert forall|k: int| 0 <= k < list@.len() implies #[trigger] entries_model(list@)[k]
                == m0.push((tag, Option::Some(node_model(child))))[k] by {
                if k < pre.len() {
                    assert(list@[k] == pre[k]);
                }
            }
            assert(entries_model(list@) =~= m0.push((tag, Option::Some(node_model(child)))));
            lemma_entries_wf_index(pre);
            lemma_entries_wf_index(list@);
            assert forall|k: int| 0 <= k < list@.len() implies entry_wf(#[trigger] list@[k]) by {
                if k < pre.len() {
                    assert(list@[k] == pre[k]);
                }
            }
        }
    }
}

impl IgnoreTreeNode {
    /// Inserts the rule whose segments are `segs[from..]` into this node.
    fn add_segs(&mut self, segs: &Vec<String>, from: usize)
        requires
            old(self).wf(),
            from < segs@.len(),
        ensures
            final(self).wf(),
            final(self)@ == node_insert(old(self)@, strs_view(segs@).skip(from as int)),
        decreases segs@.len() - from, 1nat,
    {
        let ghost ss = strs_view(segs@).skip(from as int);
        proof {
            assert(ss[0] == segs@[from as int]@);
        }
        let n = segs.len();
        let is_last = from == n - 1;
        let flen = segs[from].as_str().unicode_len();
        if is_last && flen == 0 {
            proof {
                assert(ss.len() == 1 && ss[0].len() == 0);
            }
            return ;
        }
        if flen > 0 && segs[from].as_str().get_char(0) == '!' {
            let stripped = segs[from].as_str().substring_char(1, flen);
            proof {
                assert(stripped@ =~= ss[0].drop_first());
            }
            insert_into(&mut self.exclude, stripped, segs, from);
            proof {
                assert(ss.update(0, stripped@) =~= ss.update(0, ss[0].drop_first()));
                assert(final(self)@ =~= node_insert(old(self)@, ss));
            }
        } else {
            proof {
                assert(!(ss[0].len() > 0 && ss[0][0] == '!'));
                assert(!(ss.len() == 1 && ss[0].len() == 0));
            }
            let h = segs[from].as_str();
            insert_into(&mut self.ruleset, h, segs, from);
            proof {
                assert(ss.update(0, h@) =~= ss);
                assert(final(self)@ =~= node_insert(old(self)@, ss));
            }
        }
    }

    /// Inserts one raw rule string: `!`-prefixed rules become exclude rules,
    /// everything else whitelist rules, and the empty string is a no-op.
    pub fn add_path(&mut self, target: &str)
        requires
            old(self).wf(),
        ensures
            final(self).wf(),
            final(self)@ == node_insert(old(self)@, split_path(target@)),
    {
        let segs = split_path_exec(target);
        proof {
            assert(strs_view(segs@).skip(0) =~= strs_view(segs@));
        }
        self.add_segs(&segs, 0);
    }
}

impl Default for IgnoreTreeNode {
    /// A fresh node with no rules.
    fn default() -> (r: Self)
        ensures
            r@ == empty_node(),
            r.wf(),
    {
        Self::new()
    }
}

impl IgnoreTreePattern {
    /// Whether this rule component matches one whole segment: `**` matches
    /// any segment, a regular pattern by its compiled tokens.
    pub fn match_pattern(&self, target: &str) -> (r: bool)
        ensures
            self is WildCardAll ==> r,
            self matches IgnoreTreePattern::Regular(p) ==> r == seg_match(p.tokens(), target@),
    {
        if let IgnoreTreePattern::Regular(regular) = self {
            regular.match_pattern(target)
        } else {
            true
        }
    }
}

/// Any path that at least one whitelist rule matches and no exclude rule
/// matches is kept.
pub proof fn lemma_included_and_not_excluded_is_kept(m: NodeModel, segs: Seq<Seq<char>>)
    requires
        exists|i: int| 0 <= i < m.includes.len() && entry_matches(#[trigger] m.includes[i], segs),
        forall|i: int| 0 <= i < m.excludes.len() ==> !entry_matches(#[trigger] m.excludes[i], segs),
    ensures
        keeps(m, segs),
{
    lemma_any_entry_matches(m.includes, segs);
    lemma_any_entry_matches(m.excludes, segs);
}

/// Any path that some exclude rule matches is rejected, whatever the
/// whitelist rules say.
pub proof fn lemma_excluded_is_rejected(m: NodeModel, segs: Seq<Seq<char>>)
    requires
        exists|i: int| 0 <= i < m.excludes.len() && entry_matches(#[trigger] m.excludes[i], segs),
    ensures
        !keeps(m, segs),
{
    lemma_any_entry_matches(m.excludes, segs);
}

pub proof fn lemma_find_leaf_at(list: Seq<(PatModel, Option<NodeModel>)>, tag: PatModel, idx: int)
    requires
        0 <= idx < list.len(),
        leaf_matches(list[idx], tag),
        forall|k: int| 0 <= k < idx ==> !leaf_matches(#[trigger] list[k], tag),
    ensures
        find_leaf(list, tag, 0) == Option::Some(idx),
{
    lemma_find_leaf_spec(list, tag, 0);
    match find_leaf(list, tag, 0) {
        Option::None => {
            assert(!leaf_matches(list[idx], tag));
        },
        Option::Some(j) => {
            if j < idx {
                assert(!leaf_matches(list[j], tag));
            } else if j > idx {
                assert(!leaf_matches(list[idx], tag));
            }
        },
    }
}

pub proof fn lemma_find_child_at(list: Seq<(PatModel, Option<NodeModel>)>, tag: PatModel, idx: int)
    requires
        0 <= idx < list.len(),
        child_matches(list[idx], tag),
        forall|k: int| 0 <= k < idx ==> !child_matches(#[trigger] list[k], tag),
    ensures
        find_child(list, tag, 0) == Option::Some(idx),
{
    lemma_find_child_spec(list, tag, 0);
    match find_child(list, tag, 0) {
        Option::None => {
            assert(!child_matches(list[idx], tag));
        },
        Option::Some(j) => {
            if j < idx {
                assert(!child_matches(list[j], tag));
            } else if j > idx {
                assert(!child_matches(list[idx], tag));
            }
        },
    }
}

/// Inserting the same rule twice into a rule list leaves exactly the list
/// that one insertion gives.
pub proof fn lemma_insert_segs_idempotent(
    list: Seq<(PatModel, Option<NodeModel>)>,
    segs: Seq<Seq<char>>,
)
    ensures
        insert_segs(insert_segs(list, segs), segs) == insert_segs(list, segs),
    decreases segs.len(), 0nat,
{
    if segs.len() == 0 {
    } else {
        let tag = seg_tag(segs[0]);
        let l1 = insert_segs(list, segs);
        if segs.len() == 1 {
            lemma_find_leaf_spec(list, tag, 0);
            match find_leaf(list, tag, 0) {
                Option::Some(_) => {
                },
                Option::None => {
                    assert(l1 == list.push((tag, Option::<NodeModel>::None)));
                    assert(leaf_matches(l1[list.len() as int], tag));
                    assert forall|k: int| 0 <= k < list.len() implies !leaf_matches(
                        #[trigger] l1[k],
                        tag,
                    ) by {
                        assert(l1[k] == list[k]);
                    }
                    lemma_find_leaf_at(l1, tag, list.len() as int);
                },
            }
        } else {
            let rest = segs.drop_first();
            lemma_find_child_spec(list, tag, 0);
            match find_child(list, tag, 0) {
                Option::Some(i) => {
                    let c = list[i].1->0;
                    let c1 = node_insert(c, rest);
                    assert(l1 == list.update(i, (tag, Option::Some(c1))));
                    assert(child_matches(l1[i], tag));
                    assert forall|k: int| 0 <= k < i implies !child_matches(
                        #[trigger] l1[k],
                        tag,
                    ) by {
                        assert(l1[k] == list[k]);
                    }
                    lemma_find_child_at(l1, tag, i);
                    lemma_insert_idempotent(c, rest);
                    assert(l1[i].1->0 == c1);
                    assert(insert_segs(l1, segs) == l1.update(i, (tag, Option::Some(c1))));
                    assert(l1.update(i, (tag, Option::Some(c1))) =~= l1);
                },
                Option::None => {
                    let c1 = node_insert(empty_node(), rest);
                    assert(l1 == list.push((tag, Option::Some(c1))));
                    let idx = list.len() as int;
                    assert(child_matches(l1[idx], tag));
                    assert forall|k: int| 0 <= k < idx implies !child_matches(
                        #[trigger] l1[k],
                        tag,
                    ) by {
                        assert(l1[k] == list[k]);
                    }
                    lemma_find_child_at(l1, tag, idx);
                    lemma_insert_idempotent(empty_node(), rest);
                    assert(l1[idx].1->0 == c1);
                    assert(insert_segs(l1, segs) == l1.update(idx, (tag, Option::Some(c1))));
                    assert(l1.update(idx, (tag, Option::Some(c1))) =~= l1);
                },
            }
        }
    }
}

/// Inserting an identical raw rule twice yields exactly the tree that one
/// insertion yields; in particular every query answers the same.
pub proof fn lemma_insert_idempotent(m: NodeModel, segs: Seq<Seq<char>>)
    ensures
        node_insert(node_insert(m, segs), segs) == node_insert(m, segs),
    decreases segs.len(), 1nat,
{
    if segs.len() == 0 {
    } else if segs.len() == 1 && segs[0].len() == 0 {
    } else if segs[0].len() > 0 && segs[0][0] == '!' {
        lemma_insert_segs_idempotent(m.excludes, segs.update(0, segs[0].drop_first()));
        assert(node_insert(node_insert(m, segs), segs) =~= node_insert(m, segs));
    } else {
        lemma_insert_segs_idempotent(m.includes, segs);
        assert(node_insert(node_insert(m, segs), segs) =~= node_insert(m, segs));
    }
}

} // verus!

