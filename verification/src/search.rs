//! The query resolver: dispatches on query syntax and walks the tree,
//! collecting `(path, node)` results.
//!
//! Three addressing styles share one tree.  An absolute path (leading `/`)
//! descends segment by segment with exact title comparison.  A subpath
//! (contains `/` but no leading one) walks the whole tree, matching the
//! trailing segment against entry titles and the earlier segments against
//! group titles, then keeps only the results whose path contains the query
//! verbatim.  A bare name matches entry titles anywhere in the tree.

use vstd::prelude::*;

use crate::strutil::{
    first_slash_from, fold_case, fold_case_exec, has_slash, has_substring, lemma_first_non_slash_is,
    lemma_first_slash_bounds, lemma_first_slash_is, spec_split, split_slash, str_contains, str_eq,
    trim_leading_slashes, trim_slashes,
};
use crate::tree::{Entry, Error, Group, NodeRef};

verus! {

/// How titles are compared during subpath and bare-name searches: with or
/// without case folding, as whole strings or by substring containment.
#[derive(Clone, Copy, Debug, PartialEq, Eq, Structural)]
pub struct SearchOptions {
    pub case_sensitive: bool,
    pub exact_match: bool,
}

/// One match: the slash-delimited path from the root to the node, and the
/// node itself.
#[derive(Debug)]
pub struct SearchResult<'a> {
    pub path: String,
    pub node: NodeRef<'a>,
}

/// The query resolver, bound to one tree and one set of options.
pub struct Finder<'a> {
    pub root: &'a Group,
    pub options: SearchOptions,
}

/// The matcher's verdict on a value, a pattern and the options.  Without
/// case sensitivity both sides are case-folded first; with exact matching
/// the verdict is string equality, otherwise substring containment of the
/// pattern in the value.
pub open spec fn spec_matches(value: Seq<char>, pattern: Seq<char>, o: SearchOptions) -> bool {
    let v = if o.case_sensitive {
        value
    } else {
        fold_case(value)
    };
    let p = if o.case_sensitive {
        pattern
    } else {
        fold_case(pattern)
    };
    if o.exact_match {
        v == p
    } else {
        has_substring(v, p)
    }
}

/// Join a path and a title with `/`, eliding empty components; used by the
/// bare-name strategy, whose accumulated path starts empty.
pub open spec fn join_path(cur: Seq<char>, name: Seq<char>) -> Seq<char> {
    if name.len() == 0 {
        cur
    } else if cur.len() == 0 {
        name
    } else {
        cur + seq!['/'] + name
    }
}

/// Join a path and a title with `/`, eliding empty titles and never
/// doubling the separator; used by the subpath strategy, whose
/// accumulated path starts at `/`.
pub open spec fn join_abs(cur: Seq<char>, name: Seq<char>) -> Seq<char> {
    if name.len() == 0 {
        cur
    } else if cur == seq!['/'] {
        seq!['/'] + name
    } else {
        cur + seq!['/'] + name
    }
}

/// The path under which a bare-name hit is reported.
pub open spec fn name_entry_path(gpath: Seq<char>, title: Seq<char>) -> Seq<char> {
    seq!['/'] + join_path(gpath, title)
}

/// Bare-name hits among the first `i` entries of `es`.
pub open spec fn entry_name_hits_upto(
    es: Seq<Entry>,
    i: int,
    gpath: Seq<char>,
    q: Seq<char>,
    o: SearchOptions,
) -> Seq<(Seq<char>, Entry)>
    decreases i,
{
    if i <= 0 {
        Seq::empty()
    } else {
        entry_name_hits_upto(es, i - 1, gpath, q, o) + if spec_matches(es[i - 1].title@, q, o) {
            seq![(name_entry_path(gpath, es[i - 1].title@), es[i - 1])]
        } else {
            Seq::empty()
        }
    }
}

/// Every bare-name hit in the subtree rooted at `g`, in traversal order:
/// first the group's own entries, then the child groups in order.
pub open spec fn name_hits(g: Group, cur: Seq<char>, q: Seq<char>, o: SearchOptions) -> Seq<
    (Seq<char>, Entry),
>
    decreases g, 0int,
{
    let gpath = join_path(cur, g.title@);
    entry_name_hits_upto(g.entries@, g.entries@.len() as int, gpath, q, o)
        + child_name_hits_upto(g.groups@, g.groups@.len() as int, gpath, q, o)
}

/// Bare-name hits in the subtrees of the first `i` children of `gs`.
pub open spec fn child_name_hits_upto(
    gs: Seq<Group>,
    i: int,
    gpath: Seq<char>,
    q: Seq<char>,
    o: SearchOptions,
) -> Seq<(Seq<char>, Entry)>
    decreases gs, i,
{
    if i <= 0 || i > gs.len() {
        Seq::empty()
    } else {
        child_name_hits_upto(gs, i - 1, gpath, q, o) + name_hits(gs[i - 1], gpath, q, o)
    }
}

/// `post` is `pre` followed by one result per hit, with the hit's path and
/// a reference to the hit's entry.
pub open spec fn extended_by<'a>(
    pre: Seq<SearchResult<'a>>,
    post: Seq<SearchResult<'a>>,
    hits: Seq<(Seq<char>, Entry)>,
) -> bool {
    &&& post.len() == pre.len() + hits.len()
    &&& forall|i: int| 0 <= i < pre.len() ==> post[i] == pre[i]
    &&& forall|k: int|
        0 <= k < hits.len() ==> {
            &&& (#[trigger] post[pre.len() + k]).path@ == hits[k].0
            &&& post[pre.len() + k].node matches NodeRef::Entry(e) && *e == hits[k].1
        }
}

pub proof fn lemma_extended_by_trans<'a>(
    a: Seq<SearchResult<'a>>,
    b: Seq<SearchResult<'a>>,
    c: Seq<SearchResult<'a>>,
    h1: Seq<(Seq<char>, Entry)>,
    h2: Seq<(Seq<char>, Entry)>,
)
    requires
        extended_by(a, b, h1),
        extended_by(b, c, h2),
    ensures
        extended_by(a, c, h1 + h2),
{
    assert forall|k: int| 0 <= k < (h1 + h2).len() implies {
        &&& (#[trigger] c[a.len() + k]).path@ == (h1 + h2)[k].0
        &&& c[a.len() + k].node matches NodeRef::Entry(e) && *e == (h1 + h2)[k].1
    } by {
        if k < h1.len() {
            assert(c[a.len() + k] == b[a.len() + k]);
        } else {
            assert(c[b.len() + (k - h1.len())].path@ == h2[k - h1.len()].0);
        }
    }
}

/// What `find` returns for a bare-name query: one result per hit of the
/// whole-tree walk, in traversal order.
pub open spec fn name_post<'a>(
    root: Group,
    o: SearchOptions,
    q: Seq<char>,
    r: Result<Vec<SearchResult<'a>>, Error>,
) -> bool {
    r matches Ok(rs) && extended_by(Seq::empty(), rs@, name_hits(root, Seq::empty(), q, o))
}

impl<'a> Finder<'a> {
    /// Bind a resolver to a tree root and a set of options.
    pub fn new(root: &'a Group, options: SearchOptions) -> (r: Finder<'a>)
        ensures
            r.root == root,
            r.options == options,
    {
        Finder { root, options }
    }

    /// The matcher.  Deterministic and total for any two strings.
    pub fn matches(&self, value: &str, pattern: &str) -> (r: bool)
        ensures
            r == spec_matches(value@, pattern@, self.options),
    {
        if self.options.case_sensitive {
            if self.options.exact_match {
                str_eq(value, pattern)
            } else {
                str_contains(value, pattern)
            }
        } else {
            let v = fold_case_exec(value);
            let p = fold_case_exec(pattern);
            if self.options.exact_match {
                str_eq(v.as_str(), p.as_str())
            } else {
                str_contains(v.as_str(), p.as_str())
            }
        }
    }

    /// Bare-name strategy: collect a result for every entry anywhere in
    /// the tree whose title matches the query.
    fn find_by_name(&self, query: &str) -> (r: Result<Vec<SearchResult<'a>>, Error>)
        ensures
            name_post(*self.root, self.options, query@, r),
    {
        let mut results: Vec<SearchResult<'a>> = Vec::new();
        let empty = String::new();
        self.search_group_recursive_name(self.root, empty.as_str(), query, &mut results);
        Ok(results)
    }

    /// One step of the bare-name walk: this group's entries, then its
    /// children.
    fn search_group_recursive_name(
        &self,
        group: &'a Group,
        current_path: &str,
        target_name: &str,
        results: &mut Vec<SearchResult<'a>>,
    )
        ensures
            extended_by(
                old(results)@,
                final(results)@,
                name_hits(*group, current_path@, target_name@, self.options),
            ),
        decreases *group,
    {
        let group_path = join_rel(current_path, group.title.as_str());
        let ghost gpath = join_path(current_path@, group.title@);
        let ghost base = results@;
        let mut j: usize = 0;
        while j < group.entries.len()
            invariant
                0 <= j <= group.entries@.len(),
                extended_by(
                    base,
                    results@,
                    entry_name_hits_upto(
                        group.entries@,
                        j as int,
                        gpath,
                        target_name@,
                        self.options,
                    ),
                ),
            decreases group.entries@.len() - j,
        {
            let e: &'a Entry = &group.entries[j];
            let ghost hits_pre = entry_name_hits_upto(
                group.entries@,
                j as int,
                gpath,
                target_name@,
                self.options,
            );
            if self.matches(e.title.as_str(), target_name) {
                let joined = join_rel(group_path.as_str(), e.title.as_str());
                let path = prepend_slash(joined.as_str());
                results.push(SearchResult { path, node: NodeRef::Entry(e) });
                proof {
                    assert(extended_by(
                        base,
                        results@,
                        hits_pre + seq![(name_entry_path(gpath, e.title@), *e)],
                    ));
                }
            } else {
                proof {
                    assert(hits_pre + Seq::<(Seq<char>, Entry)>::empty() =~= hits_pre);
                }
            }
            j = j + 1;
        }
        let ghost entry_hits = entry_name_hits_upto(
            group.entries@,
            group.entries@.len() as int,
            gpath,
            target_name@,
            self.options,
        );
        let mut k: usize = 0;
        while k < group.groups.len()
            invariant
                0 <= k <= group.groups@.len(),
                extended_by(
                    base,
                    results@,
                    entry_hits + child_name_hits_upto(
                        group.groups@,
                        k as int,
                        gpath,
                        target_name@,
                        self.options,
                    ),
                ),
            decreases group.groups@.len() - k,
        {
            let ghost pre = results@;
            let ghost child_pre = child_name_hits_upto(
                group.groups@,
                k as int,
                gpath,
                target_name@,
                self.options,
            );
            self.search_group_recursive_name(
                &group.groups[k],
                group_path.as_str(),
                target_name,
                results,
            );
            proof {
                let sub = name_hits(group.groups@[k as int], gpath, target_name@, self.options);
                lemma_extended_by_trans(base, pre, results@, entry_hits + child_pre, sub);
                assert((entry_hits + child_pre) + sub =~= entry_hits + (child_pre + sub));
            }
            k = k + 1;
        }
    }
}

/// Outcome of resolving an absolute path against a group: the entry or
/// group found, or which kind of segment was missing.
pub enum AbsOutcome {
    FoundEntry(Entry),
    FoundGroup(Group),
    SegmentNotFound,
    NotFound,
}

/// Index of the first entry at or after `i` whose title equals `t`
/// exactly, or the length when there is none.
pub open spec fn first_entry_ix(es: Seq<Entry>, t: Seq<char>, i: int) -> int
    decreases es.len() - i,
{
    if i < 0 || i >= es.len() {
        es.len() as int
    } else if es[i].title@ == t {
        i
    } else {
        first_entry_ix(es, t, i + 1)
    }
}

/// Index of the first group at or after `i` whose title equals `t`
/// exactly, or the length when there is none.
pub open spec fn first_group_ix(gs: Seq<Group>, t: Seq<char>, i: int) -> int
    decreases gs.len() - i,
{
    if i < 0 || i >= gs.len() {
        gs.len() as int
    } else if gs[i].title@ == t {
        i
    } else {
        first_group_ix(gs, t, i + 1)
    }
}

pub proof fn lemma_first_entry_is(es: Seq<Entry>, t: Seq<char>, i: int, j: int)
    requires
        0 <= i <= j <= es.len(),
        forall|k: int| i <= k < j ==> es[k].title@ != t,
        j == es.len() || es[j].title@ == t,
    ensures
        first_entry_ix(es, t, i) == j,
    decreases j - i,
{
    if i < j {
        lemma_first_entry_is(es, t, i + 1, j);
    }
}

pub proof fn lemma_first_group_is(gs: Seq<Group>, t: Seq<char>, i: int, j: int)
    requires
        0 <= i <= j <= gs.len(),
        forall|k: int| i <= k < j ==> gs[k].title@ != t,
        j == gs.len() || gs[j].title@ == t,
    ensures
        first_group_ix(gs, t, i) == j,
    decreases j - i,
{
    if i < j {
        lemma_first_group_is(gs, t, i + 1, j);
    }
}

/// Resolve the segments of an absolute path, starting at segment `i` of
/// `parts`, against the group `g`.  Intermediate segments descend into the
/// first subgroup with exactly that title.  At the last segment the
/// entries are scanned before the subgroups, and the first exact title
/// match wins.
pub open spec fn abs_resolve(g: Group, parts: Seq<Seq<char>>, i: int) -> AbsOutcome
    decreases parts.len() - i,
{
    if i < 0 || i >= parts.len() {
        AbsOutcome::NotFound
    } else {
        let part = parts[i];
        if i == parts.len() - 1 {
            let ei = first_entry_ix(g.entries@, part, 0);
            if ei < g.entries@.len() {
                AbsOutcome::FoundEntry(g.entries@[ei])
            } else {
                let gi = first_group_ix(g.groups@, part, 0);
                if gi < g.groups@.len() {
                    AbsOutcome::FoundGroup(g.groups@[gi])
                } else {
                    AbsOutcome::NotFound
                }
            }
        } else {
            let gi = first_group_ix(g.groups@, part, 0);
            if gi < g.groups@.len() {
                abs_resolve(g.groups@[gi], parts, i + 1)
            } else {
                AbsOutcome::SegmentNotFound
            }
        }
    }
}

/// The segments of an absolute-path query: leading slashes are removed
/// and the rest is split on `/`.
pub open spec fn abs_parts(q: Seq<char>) -> Seq<Seq<char>> {
    spec_split(trim_slashes(q))
}

/// A first segment equal to the root's title is consumed as a redundant
/// root reference.
pub open spec fn abs_start(root: Group, parts: Seq<Seq<char>>) -> int {
    if parts.len() > 0 && parts[0] == root.title@ {
        1
    } else {
        0
    }
}

/// What `find` returns for an absolute-path query: at most one result,
/// whose path echoes the query verbatim, or the typed failure.
pub open spec fn abs_post<'a>(
    root: Group,
    q: Seq<char>,
    r: Result<Vec<SearchResult<'a>>, Error>,
) -> bool {
    let parts = abs_parts(q);
    let start = abs_start(root, parts);
    if start >= parts.len() {
        r matches Err(er) && er == Error::EmptyQuery
    } else {
        match abs_resolve(root, parts, start) {
            AbsOutcome::FoundEntry(e) => r matches Ok(rs) && rs@.len() == 1 && rs@[0].path@ == q
                && (rs@[0].node matches NodeRef::Entry(p) && *p == e),
            AbsOutcome::FoundGroup(g) => r matches Ok(rs) && rs@.len() == 1 && rs@[0].path@ == q
                && (rs@[0].node matches NodeRef::Group(p) && *p == g),
            AbsOutcome::SegmentNotFound => r matches Err(er) && er == Error::PathSegmentNotFound,
            AbsOutcome::NotFound => r matches Err(er) && er == Error::EntryNotFound,
        }
    }
}

/// Index of the first entry of `g` titled exactly `part`, if any.
fn find_entry_ix_in<'a>(g: &'a Group, part: &str) -> (r: Option<usize>)
    ensures
        match r {
            Some(j) => j < g.entries@.len() && first_entry_ix(g.entries@, part@, 0) == j,
            None => first_entry_ix(g.entries@, part@, 0) == g.entries@.len(),
        },
{
    let mut j: usize = 0;
    while j < g.entries.len()
        invariant
            0 <= j <= g.entries@.len(),
            forall|k: int| 0 <= k < j ==> g.entries@[k].title@ != part@,
        decreases g.entries@.len() - j,
    {
        let e = &g.entries[j];
        if str_eq(e.title.as_str(), part) {
            proof {
                lemma_first_entry_is(g.entries@, part@, 0, j as int);
            }
            return Some(j);
        }
        j = j + 1;
    }
    proof {
        lemma_first_entry_is(g.entries@, part@, 0, g.entries@.len() as int);
    }
    None
}

/// Index of the first subgroup of `g` titled exactly `part`, if any.
fn find_group_ix_in<'a>(g: &'a Group, part: &str) -> (r: Option<usize>)
    ensures
        match r {
            Some(j) => j < g.groups@.len() && first_group_ix(g.groups@, part@, 0) == j,
            None => first_group_ix(g.groups@, part@, 0) == g.groups@.len(),
        },
{
    let mut j: usize = 0;
    while j < g.groups.len()
        invariant
            0 <= j <= g.groups@.len(),
            forall|k: int| 0 <= k < j ==> g.groups@[k].title@ != part@,
        decreases g.groups@.len() - j,
    {
        let c = &g.groups[j];
        if str_eq(c.title.as_str(), part) {
            proof {
                lemma_first_group_is(g.groups@, part@, 0, j as int);
            }
            return Some(j);
        }
        j = j + 1;
    }
    proof {
        lemma_first_group_is(g.groups@, part@, 0, g.groups@.len() as int);
    }
    None
}

impl<'a> Finder<'a> {
    /// Absolute-path strategy: descend segment by segment with exact
    /// title comparison; at the last segment entries take precedence over
    /// groups.  Yields at most one result, whose path echoes the query.
    fn find_by_absolute_path(&self, path: &str) -> (r: Result<Vec<SearchResult<'a>>, Error>)
        ensures
            abs_post(*self.root, path@, r),
    {
        let trimmed = trim_leading_slashes(path);
        let parts = split_slash(trimmed);
        let ghost pv = crate::strutil::views_of(parts@);
        proof {
            assert(pv =~= abs_parts(path@));
        }
        let mut start: usize = 0;
        let p0: &String = &parts[0];
        if str_eq(p0.as_str(), self.root.title.as_str()) {
            start = 1;
        }
        proof {
            assert(pv[0] == parts@[0]@);
            assert(start as int == abs_start(*self.root, pv));
        }
        if start >= parts.len() {
            return Err(Error::EmptyQuery);
        }
        let mut cur: &'a Group = self.root;
        let mut i: usize = start;
        while i < parts.len()
            invariant
                start <= i < parts@.len(),
                start as int == abs_start(*self.root, pv),
                start < parts@.len(),
                abs_resolve(*cur, pv, i as int) == abs_resolve(
                    *self.root,
                    pv,
                    start as int,
                ),
            decreases parts@.len() - i,
        {
            let part: &String = &parts[i];
            proof {
                assert(pv[i as int] == parts@[i as int]@);
            }
            let is_last = i == parts.len() - 1;
            if is_last {
                match find_entry_ix_in(cur, part.as_str()) {
                    Some(j) => {
                        let mut one: Vec<SearchResult<'a>> = Vec::new();
                        one.push(
                            SearchResult { path: path.to_owned(), node: NodeRef::Entry(&cur.entries[j]) },
                        );
                        return Ok(one);
                    },
                    None => {
                        match find_group_ix_in(cur, part.as_str()) {
                            Some(j) => {
                                let mut one: Vec<SearchResult<'a>> = Vec::new();
                                one.push(
                                    SearchResult {
                                        path: path.to_owned(),
                                        node: NodeRef::Group(&cur.groups[j]),
                                    },
                                );
                                return Ok(one);
                            },
                            None => {
                                return Err(Error::EntryNotFound);
                            },
                        }
                    },
                }
            } else {
                match find_group_ix_in(cur, part.as_str()) {
                    Some(j) => {
                        cur = &cur.groups[j];
                    },
                    None => {
                        return Err(Error::PathSegmentNotFound);
                    },
                }
            }
            i = i + 1;
        }
        Err(Error::EntryNotFound)
    }
}

/// Subpath hits among the first `i` entries of `es`: entries whose title
/// matches the trailing segment of the query.
pub open spec fn entry_sub_hits_upto(
    es: Seq<Entry>,
    i: int,
    gpath: Seq<char>,
    t: Seq<char>,
    o: SearchOptions,
) -> Seq<(Seq<char>, Entry)>
    decreases i,
{
    if i <= 0 {
        Seq::empty()
    } else {
        entry_sub_hits_upto(es, i - 1, gpath, t, o) + if spec_matches(es[i - 1].title@, t, o) {
            seq![(join_abs(gpath, es[i - 1].title@), es[i - 1])]
        } else {
            Seq::empty()
        }
    }
}

/// Every candidate of the subpath walk below `g`, in traversal order,
/// before the final substring filter.  `sp` is the unconsumed sub-path.
/// The group's entries are candidates when one segment remains; when the
/// group's own title matches the first segment, the children are walked
/// with that segment consumed; and the children are always also walked
/// with the sub-path unconsumed, so a match may begin at any depth.
pub open spec fn sub_hits(
    g: Group,
    cur: Seq<char>,
    sp: Seq<Seq<char>>,
    t: Seq<char>,
    o: SearchOptions,
) -> Seq<(Seq<char>, Entry)>
    decreases g, 0int,
{
    let gpath = join_abs(cur, g.title@);
    let own = if sp.len() == 1 {
        entry_sub_hits_upto(g.entries@, g.entries@.len() as int, gpath, t, o)
    } else {
        Seq::empty()
    };
    let consumed = if sp.len() > 0 && spec_matches(g.title@, sp[0], o) {
        child_sub_hits_upto(g.groups@, g.groups@.len() as int, gpath, sp.drop_first(), t, o)
    } else {
        Seq::empty()
    };
    own + consumed + child_sub_hits_upto(g.groups@, g.groups@.len() as int, gpath, sp, t, o)
}

/// Subpath candidates in the subtrees of the first `i` children of `gs`.
pub open spec fn child_sub_hits_upto(
    gs: Seq<Group>,
    i: int,
    gpath: Seq<char>,
    sp: Seq<Seq<char>>,
    t: Seq<char>,
    o: SearchOptions,
) -> Seq<(Seq<char>, Entry)>
    decreases gs, i,
{
    if i <= 0 || i > gs.len() {
        Seq::empty()
    } else {
        child_sub_hits_upto(gs, i - 1, gpath, sp, t, o) + sub_hits(gs[i - 1], gpath, sp, t, o)
    }
}

/// The first `i` candidates whose path contains the query verbatim.
pub open spec fn filter_hits_upto(hits: Seq<(Seq<char>, Entry)>, q: Seq<char>, i: int) -> Seq<
    (Seq<char>, Entry),
>
    decreases i,
{
    if i <= 0 || i > hits.len() {
        Seq::empty()
    } else {
        filter_hits_upto(hits, q, i - 1) + if has_substring(hits[i - 1].0, q) {
            seq![hits[i - 1]]
        } else {
            Seq::empty()
        }
    }
}

/// What `find` returns for a subpath query: the candidates of the
/// whole-tree walk whose path contains the query as a literal substring,
/// in traversal order.
pub open spec fn sub_post<'a>(
    root: Group,
    o: SearchOptions,
    q: Seq<char>,
    r: Result<Vec<SearchResult<'a>>, Error>,
) -> bool {
    let parts = spec_split(q);
    if parts.len() < 2 {
        r matches Err(er) && er == Error::InvalidSubpath
    } else {
        let all = subpath_candidates(root, q, o);
        r matches Ok(rs) && extended_by(
            Seq::empty(),
            rs@,
            filter_hits_upto(all, q, all.len() as int),
        )
    }
}

impl<'a> Finder<'a> {
    /// Subpath strategy: walk the whole tree collecting candidates, then
    /// keep those whose path contains the query verbatim.
    fn find_by_subpath(&self, query: &str) -> (r: Result<Vec<SearchResult<'a>>, Error>)
        ensures
            sub_post(*self.root, self.options, query@, r),
    {
        let parts = split_slash(query);
        if parts.len() < 2 {
            return Err(Error::InvalidSubpath);
        }
        let ghost pv = crate::strutil::views_of(parts@);
        let target: &String = &parts[parts.len() - 1];
        let ghost sp_all = pv.subrange(0, pv.len() - 1);
        proof {
            assert(sp_all =~= spec_split(query@).drop_last());
            assert(target@ == pv[pv.len() - 1]);
            assert(target@ == spec_split(query@).last());
        }
        let mut results: Vec<SearchResult<'a>> = Vec::new();
        let root_path = slash_string();
        self.search_group_recursive(
            self.root,
            root_path.as_str(),
            &parts,
            0,
            target.as_str(),
            &mut results,
        );
        let ghost all = sub_hits(*self.root, seq!['/'], sp_all, target@, self.options);
        let mut filtered: Vec<SearchResult<'a>> = Vec::new();
        let mut i: usize = 0;
        while i < results.len()
            invariant
                0 <= i <= results@.len(),
                results@.len() == all.len(),
                extended_by(Seq::empty(), results@, all),
                extended_by(Seq::empty(), filtered@, filter_hits_upto(all, query@, i as int)),
            decreases results@.len() - i,
        {
            let ghost fpre = filter_hits_upto(all, query@, i as int);
            proof {
                assert(results@[0 + i as int].path@ == all[i as int].0);
                assert(results@[0 + i as int].node matches NodeRef::Entry(e) && *e
                    == all[i as int].1);
            }
            let rr = &results[i];
            if str_contains(rr.path.as_str(), query) {
                filtered.push(SearchResult { path: rr.path.clone(), node: rr.node });
                proof {
                    assert(extended_by(Seq::empty(), filtered@, fpre + seq![all[i as int]]));
                }
            } else {
                proof {
                    assert(fpre + Seq::<(Seq<char>, Entry)>::empty() =~= fpre);
                }
            }
            i = i + 1;
        }
        Ok(filtered)
    }

    /// One step of the subpath walk; `consumed` segments of the sub-path
    /// (the query without its trailing segment) are already matched.
    fn search_group_recursive(
        &self,
        group: &'a Group,
        current_path: &str,
        parts: &Vec<String>,
        consumed: usize,
        target_name: &str,
        results: &mut Vec<SearchResult<'a>>,
    )
        requires
            parts@.len() >= 1,
            consumed <= parts@.len() - 1,
        ensures
            extended_by(
                old(results)@,
                final(results)@,
                sub_hits(
                    *group,
                    current_path@,
                    crate::strutil::views_of(parts@).subrange(
                        consumed as int,
                        parts@.len() - 1,
                    ),
                    target_name@,
                    self.options,
                ),
            ),
        decreases *group,
    {
        let ghost sp = crate::strutil::views_of(parts@).subrange(
            consumed as int,
            parts@.len() - 1,
        );
        let ghost base = results@;
        let group_path = join_slashed(current_path, group.title.as_str());
        let ghost gpath = join_abs(current_path@, group.title@);
        let sp_len: usize = parts.len() - 1 - consumed;
        if sp_len == 1 {
            let mut j: usize = 0;
            while j < group.entries.len()
                invariant
                    0 <= j <= group.entries@.len(),
                    extended_by(
                        base,
                        results@,
                        entry_sub_hits_upto(
                            group.entries@,
                            j as int,
                            gpath,
                            target_name@,
                            self.options,
                        ),
                    ),
                decreases group.entries@.len() - j,
            {
                let e: &'a Entry = &group.entries[j];
                let ghost hits_pre = entry_sub_hits_upto(
                    group.entries@,
                    j as int,
                    gpath,
                    target_name@,
                    self.options,
                );
                if self.matches(e.title.as_str(), target_name) {
                    let path = join_slashed(group_path.as_str(), e.title.as_str());
                    results.push(SearchResult { path, node: NodeRef::Entry(e) });
                    proof {
                        assert(extended_by(
                            base,
                            results@,
                            hits_pre + seq![(join_abs(gpath, e.title@), *e)],
                        ));
                    }
                } else {
                    proof {
                        assert(hits_pre + Seq::<(Seq<char>, Entry)>::empty() =~= hits_pre);
                    }
                }
                j = j + 1;
            }
        }
        let ghost entry_part = if sp.len() == 1 {
            entry_sub_hits_upto(
                group.entries@,
                group.entries@.len() as int,
                gpath,
                target_name@,
                self.options,
            )
        } else {
            Seq::<(Seq<char>, Entry)>::empty()
        };
        proof {
            assert(extended_by(base, results@, entry_part));
        }
        let mut did_consume = false;
        if sp_len > 0 {
            let pj: &String = &parts[consumed];
            proof {
                assert(sp[0] == parts@[consumed as int]@);
            }
            if self.matches(group.title.as_str(), pj.as_str()) {
                did_consume = true;
                let mut k: usize = 0;
                while k < group.groups.len()
                    invariant
                        0 <= k <= group.groups@.len(),
                        sp.len() > 0 && spec_matches(group.title@, sp[0], self.options),
                        extended_by(
                            base,
                            results@,
                            entry_part + child_sub_hits_upto(
                                group.groups@,
                                k as int,
                                gpath,
                                sp.drop_first(),
                                target_name@,
                                self.options,
                            ),
                        ),
                    decreases group.groups@.len() - k,
                {
                    let ghost pre = results@;
                    let ghost child_pre = child_sub_hits_upto(
                        group.groups@,
                        k as int,
                        gpath,
                        sp.drop_first(),
                        target_name@,
                        self.options,
                    );
                    self.search_group_recursive(
                        &group.groups[k],
                        group_path.as_str(),
                        parts,
                        consumed + 1,
                        target_name,
                        results,
                    );
                    proof {
                        assert(crate::strutil::views_of(parts@).subrange(
                            consumed as int + 1,
                            parts@.len() - 1,
                        ) =~= sp.drop_first());
                        let sub = sub_hits(
                            group.groups@[k as int],
                            gpath,
                            sp.drop_first(),
                            target_name@,
                            self.options,
                        );
                        lemma_extended_by_trans(
                            base,
                            pre,
                            results@,
                            entry_part + child_pre,
                            sub,
                        );
                        assert((entry_part + child_pre) + sub =~= entry_part + (child_pre
                            + sub));
                    }
                    k = k + 1;
                }
            }
        }
        let ghost consumed_part = if sp.len() > 0 && spec_matches(
            group.title@,
            sp[0],
            self.options,
        ) {
            child_sub_hits_upto(
                group.groups@,
                group.groups@.len() as int,
                gpath,
                sp.drop_first(),
                target_name@,
                self.options,
            )
        } else {
            Seq::<(Seq<char>, Entry)>::empty()
        };
        proof {
            if !did_consume {
                assert(entry_part + consumed_part =~= entry_part);
            }
            assert(extended_by(base, results@, entry_part + consumed_part));
        }
        let mut k: usize = 0;
        while k < group.groups.len()
            invariant
                0 <= k <= group.groups@.len(),
                extended_by(
                    base,
                    results@,
                    (entry_part + consumed_part) + child_sub_hits_upto(
                        group.groups@,
                        k as int,
                        gpath,
                        sp,
                        target_name@,
                        self.options,
                    ),
                ),
            decreases group.groups@.len() - k,
        {
            let ghost pre = results@;
            let ghost child_pre = child_sub_hits_upto(
                group.groups@,
                k as int,
                gpath,
                sp,
                target_name@,
                self.options,
            );
            self.search_group_recursive(
                &group.groups[k],
                group_path.as_str(),
                parts,
                consumed,
                target_name,
                results,
            );
            proof {
                let sub = sub_hits(group.groups@[k as int], gpath, sp, target_name@, self.options);
                lemma_extended_by_trans(
                    base,
                    pre,
                    results@,
                    (entry_part + consumed_part) + child_pre,
                    sub,
                );
                assert(((entry_part + consumed_part) + child_pre) + sub =~= (entry_part
                    + consumed_part) + (child_pre + sub));
            }
            k = k + 1;
        }
        proof {
            assert(sub_hits(*group, current_path@, sp, target_name@, self.options)
                == (entry_part + consumed_part) + child_sub_hits_upto(
                group.groups@,
                group.groups@.len() as int,
                gpath,
                sp,
                target_name@,
                self.options,
            ));
        }
    }
}

impl<'a> Finder<'a> {
    /// Resolve a query.  A leading `/` selects the absolute-path
    /// strategy, any other `/` the subpath strategy, and a query without
    /// `/` the bare-name strategy.  The complete match set is returned;
    /// choosing among zero, one or many results is the caller's policy.
    pub fn find(&self, query: &str) -> (r: Result<Vec<SearchResult<'a>>, Error>)
        ensures
            query@.len() > 0 && query@[0] == '/' ==> abs_post(*self.root, query@, r),
            (query@.len() == 0 || query@[0] != '/') && has_slash(query@) ==> sub_post(
                *self.root,
                self.options,
                query@,
                r,
            ),
            (query@.len() == 0 || query@[0] != '/') && !has_slash(query@) ==> name_post(
                *self.root,
                self.options,
                query@,
                r,
            ),
    {
        let n = query.unicode_len();
        if n > 0 && query.get_char(0) == '/' {
            self.find_by_absolute_path(query)
        } else if crate::strutil::contains_slash(query) {
            self.find_by_subpath(query)
        } else {
            self.find_by_name(query)
        }
    }
}

/// Law: with case sensitivity and exact matching, the matcher's verdict
/// is string equality, for all values and patterns.
pub proof fn lemma_matches_exact_case_sensitive(v: Seq<char>, p: Seq<char>)
    ensures
        spec_matches(v, p, (SearchOptions { case_sensitive: true, exact_match: true })) == (v
            == p),
{
}

/// Law: without case sensitivity and without exact matching, the
/// matcher's verdict is substring containment of the case-folded pattern
/// in the case-folded value, for all values and patterns.
pub proof fn lemma_matches_folded_substring(v: Seq<char>, p: Seq<char>)
    ensures
        spec_matches(v, p, (SearchOptions { case_sensitive: false, exact_match: false }))
            == has_substring(fold_case(v), fold_case(p)),
{
}

/// Sibling entries carry pairwise distinct titles.
pub open spec fn distinct_entry_titles(es: Seq<Entry>) -> bool {
    forall|i: int, j: int| 0 <= i < j < es.len() ==> es[i].title@ != es[j].title@
}

/// Sibling groups carry pairwise distinct titles.
pub open spec fn distinct_group_titles(gs: Seq<Group>) -> bool {
    forall|i: int, j: int| 0 <= i < j < gs.len() ==> gs[i].title@ != gs[j].title@
}

/// A title that aligns with path segments: nonempty and free of `/`.
pub open spec fn clean_title(t: Seq<char>) -> bool {
    t.len() > 0 && !has_slash(t)
}

/// A tree whose paths are unambiguous: below the root every title is
/// nonempty and free of `/`, and sibling titles are pairwise distinct.
pub open spec fn clean_tree(g: Group) -> bool
    decreases g, 1int,
{
    &&& distinct_entry_titles(g.entries@)
    &&& distinct_group_titles(g.groups@)
    &&& forall|i: int|
        0 <= i < g.entries@.len() ==> clean_title((#[trigger] g.entries@[i]).title@)
    &&& forall|i: int| 0 <= i < g.groups@.len() ==> clean_title((#[trigger] g.groups@[i]).title@)
    &&& clean_children(g.groups@, g.groups@.len() as int)
}

/// The first `i` children are clean trees.
pub open spec fn clean_children(gs: Seq<Group>, i: int) -> bool
    decreases gs, i, 2int,
{
    if i <= 0 || i > gs.len() {
        true
    } else {
        clean_children(gs, i - 1) && clean_tree(gs[i - 1])
    }
}

pub proof fn lemma_clean_child(gs: Seq<Group>, i: int, idx: int)
    requires
        clean_children(gs, i),
        0 <= idx < i <= gs.len(),
    ensures
        clean_tree(gs[idx]),
    decreases i,
{
    if idx < i - 1 {
        lemma_clean_child(gs, i - 1, idx);
    }
}

/// Splitting distributes over concatenation at a separator.
pub proof fn lemma_split_concat(x: Seq<char>, y: Seq<char>)
    ensures
        spec_split(x + seq!['/'] + y) == spec_split(x) + spec_split(y),
    decreases x.len(),
{
    let s = x + seq!['/'] + y;
    lemma_first_slash_bounds(x, 0);
    let j = first_slash_from(x, 0);
    if j == x.len() {
        lemma_first_slash_is(s, 0, x.len() as int);
        assert(s.subrange(0, j) =~= x);
        assert(s.subrange(j + 1, s.len() as int) =~= y);
        assert(spec_split(s) =~= spec_split(x) + spec_split(y));
    } else {
        lemma_first_slash_is(s, 0, j);
        let xrest = x.subrange(j + 1, x.len() as int);
        assert(s.subrange(0, j) =~= x.subrange(0, j));
        assert(s.subrange(j + 1, s.len() as int) =~= xrest + seq!['/'] + y);
        lemma_split_concat(xrest, y);
        assert(spec_split(s) =~= spec_split(x) + spec_split(y));
    }
}

/// The segments of a possibly empty accumulated path: none for the empty
/// path.
pub open spec fn split_pref(s: Seq<char>) -> Seq<Seq<char>> {
    if s.len() == 0 {
        Seq::empty()
    } else {
        spec_split(s)
    }
}

/// Joining a clean title onto a path appends one segment.
pub proof fn lemma_split_join(a: Seq<char>, b: Seq<char>)
    requires
        b.len() > 0,
        !has_slash(b),
    ensures
        spec_split(join_path(a, b)) == split_pref(a) + seq![b],
{
    assert forall|k: int| 0 <= k < b.len() implies b[k] != '/' by {
        if b[k] == '/' {
            assert(has_slash(b));
        }
    }
    lemma_first_slash_is(b, 0, b.len() as int);
    assert(spec_split(b) =~= seq![b]);
    if a.len() == 0 {
        assert(join_path(a, b) == b);
        assert(spec_split(b) =~= split_pref(a) + seq![b]);
    } else {
        lemma_split_concat(a, b);
    }
}

/// Removing the leading separator of a rooted path.
pub proof fn lemma_trim_single(x: Seq<char>)
    requires
        x.len() > 0,
        x[0] != '/',
    ensures
        trim_slashes(seq!['/'] + x) == x,
{
    let s = seq!['/'] + x;
    lemma_first_non_slash_is(s, 0, 1);
    assert(s.subrange(1, s.len() as int) =~= x);
}

/// Absolute resolution reads only the segments at and after `j`.
pub proof fn lemma_abs_resolve_shift(g: Group, parts: Seq<Seq<char>>, j: int)
    requires
        0 <= j < parts.len(),
    ensures
        abs_resolve(g, parts, j) == abs_resolve(g, parts.subrange(j, parts.len() as int), 0),
    decreases parts.len() - j,
{
    let sub = parts.subrange(j, parts.len() as int);
    if j < parts.len() - 1 {
        let gi = first_group_ix(g.groups@, parts[j], 0);
        lemma_first_group_is_bounds(g.groups@, parts[j], 0);
        if gi < g.groups@.len() {
            lemma_abs_resolve_shift(g.groups@[gi], parts, j + 1);
            lemma_abs_resolve_shift(g.groups@[gi], sub, 1);
            assert(sub.subrange(1, sub.len() as int) =~= parts.subrange(
                j + 1,
                parts.len() as int,
            ));
        }
    }
}

pub proof fn lemma_first_group_is_bounds(gs: Seq<Group>, t: Seq<char>, i: int)
    requires
        0 <= i <= gs.len(),
    ensures
        i <= first_group_ix(gs, t, i) <= gs.len(),
    decreases gs.len() - i,
{
    if i < gs.len() && gs[i].title@ != t {
        lemma_first_group_is_bounds(gs, t, i + 1);
    }
}

/// Among entries with distinct titles, each is the first with its title.
pub proof fn lemma_first_entry_ix_of(es: Seq<Entry>, idx: int)
    requires
        distinct_entry_titles(es),
        0 <= idx < es.len(),
    ensures
        first_entry_ix(es, es[idx].title@, 0) == idx,
{
    lemma_first_entry_is(es, es[idx].title@, 0, idx);
}

/// Among groups with distinct titles, each is the first with its title.
pub proof fn lemma_first_group_ix_of(gs: Seq<Group>, idx: int)
    requires
        distinct_group_titles(gs),
        0 <= idx < gs.len(),
    ensures
        first_group_ix(gs, gs[idx].title@, 0) == idx,
{
    lemma_first_group_is(gs, gs[idx].title@, 0, idx);
}

/// Each bare-name hit among a group's own entries comes from one entry.
pub proof fn lemma_entry_hit_source(
    es: Seq<Entry>,
    i: int,
    gpath: Seq<char>,
    q: Seq<char>,
    o: SearchOptions,
    k: int,
)
    requires
        0 <= i <= es.len(),
        0 <= k < entry_name_hits_upto(es, i, gpath, q, o).len(),
    ensures
        exists|idx: int|
            0 <= idx < i && spec_matches((#[trigger] es[idx]).title@, q, o)
                && entry_name_hits_upto(es, i, gpath, q, o)[k] == (
            name_entry_path(gpath, es[idx].title@),
            es[idx],
            ),
    decreases i,
{
    let prev = entry_name_hits_upto(es, i - 1, gpath, q, o);
    if k < prev.len() {
        lemma_entry_hit_source(es, i - 1, gpath, q, o, k);
        let idx = choose|idx: int|
            0 <= idx < i - 1 && spec_matches((#[trigger] es[idx]).title@, q, o) && prev[k] == (
            name_entry_path(gpath, es[idx].title@),
            es[idx],
            );
        assert(entry_name_hits_upto(es, i, gpath, q, o)[k] == prev[k]);
        assert(spec_matches(es[idx].title@, q, o));
    } else {
        assert(spec_matches(es[i - 1].title@, q, o));
    }
}

/// Each bare-name hit below the children comes from one child's walk.
pub proof fn lemma_child_hit_source(
    gs: Seq<Group>,
    i: int,
    gpath: Seq<char>,
    q: Seq<char>,
    o: SearchOptions,
    k: int,
)
    requires
        0 <= i <= gs.len(),
        0 <= k < child_name_hits_upto(gs, i, gpath, q, o).len(),
    ensures
        exists|idx: int, k2: int|
            0 <= idx < i && 0 <= k2 < name_hits(gs[idx], gpath, q, o).len()
                && child_name_hits_upto(gs, i, gpath, q, o)[k] == #[trigger] name_hits(
                gs[idx],
                gpath,
                q,
                o,
            )[k2],
    decreases i,
{
    let prev = child_name_hits_upto(gs, i - 1, gpath, q, o);
    if k < prev.len() {
        lemma_child_hit_source(gs, i - 1, gpath, q, o, k);
        let (idx, k2) = choose|idx: int, k2: int|
            0 <= idx < i - 1 && 0 <= k2 < name_hits(gs[idx], gpath, q, o).len() && prev[k]
                == #[trigger] name_hits(gs[idx], gpath, q, o)[k2];
        assert(child_name_hits_upto(gs, i, gpath, q, o)[k] == prev[k]);
        assert(0 <= k2 < name_hits(gs[idx], gpath, q, o).len());
    } else {
        let k2 = k - prev.len();
        assert(child_name_hits_upto(gs, i, gpath, q, o)[k] == name_hits(
            gs[i - 1],
            gpath,
            q,
            o,
        )[k2]);
    }
}

/// The hit at `p` for entry `e` survives the round trip from below `g`:
/// its path splits into the accumulated prefix plus segments that resolve
/// from `g` to exactly `e`.
pub open spec fn round_trips_from(g: Group, gpath: Seq<char>, p: Seq<char>, e: Entry) -> bool {
    exists|segs: Seq<Seq<char>>|
        {
            &&& segs.len() >= 1
            &&& segs[0].len() > 0
            &&& spec_split(trim_slashes(p)) == split_pref(gpath) + segs
            &&& #[trigger] abs_resolve(g, segs, 0) == AbsOutcome::FoundEntry(e)
        }
}

proof fn lemma_name_hits_round_trip(g: Group, cur: Seq<char>, q: Seq<char>, o: SearchOptions, k: int)
    requires
        clean_tree(g),
        !has_slash(g.title@),
        cur.len() == 0 || cur[0] != '/',
        0 <= k < name_hits(g, cur, q, o).len(),
    ensures
        round_trips_from(
            g,
            join_path(cur, g.title@),
            name_hits(g, cur, q, o)[k].0,
            name_hits(g, cur, q, o)[k].1,
        ),
    decreases g,
{
    let gpath = join_path(cur, g.title@);
    let hits = name_hits(g, cur, q, o);
    let eh = entry_name_hits_upto(g.entries@, g.entries@.len() as int, gpath, q, o);
    let ch = child_name_hits_upto(g.groups@, g.groups@.len() as int, gpath, q, o);
    assert(gpath.len() == 0 || gpath[0] != '/') by {
        if cur.len() > 0 {
            assert(gpath[0] == cur[0]);
        } else if g.title@.len() > 0 {
            if g.title@[0] == '/' {
                assert(has_slash(g.title@));
            }
        }
    }
    if k < eh.len() {
        lemma_entry_hit_source(g.entries@, g.entries@.len() as int, gpath, q, o, k);
        let idx = choose|idx: int|
            0 <= idx < g.entries@.len() && spec_matches(
                (#[trigger] g.entries@[idx]).title@,
                q,
                o,
            ) && eh[k] == (name_entry_path(gpath, g.entries@[idx].title@), g.entries@[idx]);
        let t = g.entries@[idx].title@;
        assert(clean_title(t));
        assert(hits[k] == eh[k]);
        let x = join_path(gpath, t);
        assert(x.len() > 0 && x[0] != '/') by {
            if t[0] == '/' {
                assert(has_slash(t));
            }
            if gpath.len() > 0 {
                assert(x[0] == gpath[0]);
            }
        }
        lemma_trim_single(x);
        lemma_split_join(gpath, t);
        let segs = seq![t];
        assert(abs_resolve(g, segs, 0) == AbsOutcome::FoundEntry(g.entries@[idx])) by {
            lemma_first_entry_ix_of(g.entries@, idx);
        }
        assert(spec_split(trim_slashes(hits[k].0)) == split_pref(gpath) + segs);
    } else {
        let k1 = k - eh.len();
        lemma_child_hit_source(g.groups@, g.groups@.len() as int, gpath, q, o, k1);
        let (idx, k2) = choose|idx: int, k2: int|
            0 <= idx < g.groups@.len() && 0 <= k2 < name_hits(g.groups@[idx], gpath, q, o).len()
                && ch[k1] == #[trigger] name_hits(g.groups@[idx], gpath, q, o)[k2];
        let child = g.groups@[idx];
        let ct = child.title@;
        assert(hits[k] == ch[k1]);
        assert(clean_title(ct));
        lemma_clean_child(g.groups@, g.groups@.len() as int, idx);
        lemma_name_hits_round_trip(child, gpath, q, o, k2);
        let chits = name_hits(child, gpath, q, o);
        let segs0 = choose|segs: Seq<Seq<char>>|
            {
                &&& segs.len() >= 1
                &&& segs[0].len() > 0
                &&& spec_split(trim_slashes(chits[k2].0)) == split_pref(join_path(gpath, ct))
                    + segs
                &&& #[trigger] abs_resolve(child, segs, 0) == AbsOutcome::FoundEntry(chits[k2].1)
            };
        lemma_split_join(gpath, ct);
        let segs = seq![ct] + segs0;
        assert(spec_split(trim_slashes(hits[k].0)) =~= split_pref(gpath) + segs) by {
            assert((split_pref(gpath) + seq![ct]) + segs0 =~= split_pref(gpath) + (seq![ct]
                + segs0));
        }
        assert(abs_resolve(g, segs, 0) == AbsOutcome::FoundEntry(hits[k].1)) by {
            lemma_first_group_ix_of(g.groups@, idx);
            assert(segs[0] == ct);
            assert(segs.len() >= 2);
            lemma_abs_resolve_shift(child, segs, 1);
            assert(segs.subrange(1, segs.len() as int) =~= segs0);
        }
        assert(segs[0].len() > 0) by {
            if ct[0] == '/' {
                assert(has_slash(ct));
            }
        }
    }
}

/// Law (round trip): over a tree whose paths are unambiguous — below the
/// root every title is nonempty, free of `/`, and distinct among its
/// siblings, and the root's own title is free of `/` — the path of every
/// bare-name search hit, taken as an absolute-path query, resolves to
/// exactly the entry the hit reported.
pub proof fn lemma_bare_name_path_round_trip(root: Group, q: Seq<char>, o: SearchOptions, k: int)
    requires
        clean_tree(root),
        !has_slash(root.title@),
        0 <= k < name_hits(root, Seq::empty(), q, o).len(),
    ensures
        ({
            let hit = name_hits(root, Seq::empty(), q, o)[k];
            let parts = abs_parts(hit.0);
            let start = abs_start(root, parts);
            start < parts.len() && abs_resolve(root, parts, start) == AbsOutcome::FoundEntry(
                hit.1,
            )
        }),
{
    lemma_name_hits_round_trip(root, Seq::empty(), q, o, k);
    let hit = name_hits(root, Seq::empty(), q, o)[k];
    let gpath = join_path(Seq::empty(), root.title@);
    let segs = choose|segs: Seq<Seq<char>>|
        {
            &&& segs.len() >= 1
            &&& segs[0].len() > 0
            &&& spec_split(trim_slashes(hit.0)) == split_pref(gpath) + segs
            &&& #[trigger] abs_resolve(root, segs, 0) == AbsOutcome::FoundEntry(hit.1)
        };
    let parts = abs_parts(hit.0);
    if root.title@.len() == 0 {
        assert(parts =~= segs);
        assert(parts[0].len() > 0);
        assert(abs_start(root, parts) == 0);
    } else {
        lemma_split_join(Seq::empty(), root.title@);
        assert(gpath == root.title@);
        assert(parts =~= seq![root.title@] + segs);
        assert(parts[0] == root.title@);
        assert(abs_start(root, parts) == 1);
        lemma_abs_resolve_shift(root, parts, 1);
        assert(parts.subrange(1, parts.len() as int) =~= segs);
    }
}

/// Two bare-name hits among a group's own entries, in order, come from
/// two entries in the same order.
proof fn lemma_entry_hit_sources_ordered(
    es: Seq<Entry>,
    i: int,
    gpath: Seq<char>,
    q: Seq<char>,
    o: SearchOptions,
    k1: int,
    k2: int,
)
    requires
        0 <= i <= es.len(),
        0 <= k1 < k2 < entry_name_hits_upto(es, i, gpath, q, o).len(),
    ensures
        exists|i1: int, i2: int|
            0 <= i1 < i2 < i && entry_name_hits_upto(es, i, gpath, q, o)[k1] == (
            name_entry_path(gpath, (#[trigger] es[i1]).title@),
            es[i1],
            ) && entry_name_hits_upto(es, i, gpath, q, o)[k2] == (
            name_entry_path(gpath, (#[trigger] es[i2]).title@),
            es[i2],
            ),
    decreases i,
{
    let cur = entry_name_hits_upto(es, i, gpath, q, o);
    let prev = entry_name_hits_upto(es, i - 1, gpath, q, o);
    if k2 < prev.len() {
        lemma_entry_hit_sources_ordered(es, i - 1, gpath, q, o, k1, k2);
        let (i1, i2) = choose|i1: int, i2: int|
            0 <= i1 < i2 < i - 1 && prev[k1] == (
            name_entry_path(gpath, (#[trigger] es[i1]).title@),
            es[i1],
            ) && prev[k2] == (name_entry_path(gpath, (#[trigger] es[i2]).title@), es[i2]);
        assert(cur[k1] == prev[k1] && cur[k2] == prev[k2]);
        assert(es[i1].title@ == es[i1].title@ && es[i2].title@ == es[i2].title@);
    } else {
        lemma_entry_hit_source(es, i - 1, gpath, q, o, k1);
        let i1 = choose|i1: int|
            0 <= i1 < i - 1 && spec_matches((#[trigger] es[i1]).title@, q, o) && prev[k1] == (
            name_entry_path(gpath, es[i1].title@),
            es[i1],
            );
        assert(cur[k1] == prev[k1]);
        assert(cur[k2] == (name_entry_path(gpath, es[i - 1].title@), es[i - 1]));
        assert(es[i1].title@ == es[i1].title@);
    }
}

/// Two bare-name hits below the children, in order, come from children in
/// the same order, or from one child's walk in the same order.
proof fn lemma_child_hit_sources_ordered(
    gs: Seq<Group>,
    i: int,
    gpath: Seq<char>,
    q: Seq<char>,
    o: SearchOptions,
    k1: int,
    k2: int,
)
    requires
        0 <= i <= gs.len(),
        0 <= k1 < k2 < child_name_hits_upto(gs, i, gpath, q, o).len(),
    ensures
        exists|i1: int, j1: int, i2: int, j2: int|
            0 <= i1 <= i2 < i && (i1 == i2 ==> j1 < j2) && 0 <= j1 && 0 <= j2
                && j1 < name_hits(gs[i1], gpath, q, o).len() && j2 < name_hits(
                gs[i2],
                gpath,
                q,
                o,
            ).len() && child_name_hits_upto(gs, i, gpath, q, o)[k1] == #[trigger] name_hits(
                gs[i1],
                gpath,
                q,
                o,
            )[j1] && child_name_hits_upto(gs, i, gpath, q, o)[k2] == #[trigger] name_hits(
                gs[i2],
                gpath,
                q,
                o,
            )[j2],
    decreases i,
{
    let cur = child_name_hits_upto(gs, i, gpath, q, o);
    let prev = child_name_hits_upto(gs, i - 1, gpath, q, o);
    if k2 < prev.len() {
        lemma_child_hit_sources_ordered(gs, i - 1, gpath, q, o, k1, k2);
        let (i1, j1, i2, j2) = choose|i1: int, j1: int, i2: int, j2: int|
            0 <= i1 <= i2 < i - 1 && (i1 == i2 ==> j1 < j2) && 0 <= j1 && 0 <= j2
                && j1 < name_hits(gs[i1], gpath, q, o).len() && j2 < name_hits(
                gs[i2],
                gpath,
                q,
                o,
            ).len() && prev[k1] == #[trigger] name_hits(gs[i1], gpath, q, o)[j1] && prev[k2]
                == #[trigger] name_hits(gs[i2], gpath, q, o)[j2];
        assert(cur[k1] == prev[k1] && cur[k2] == prev[k2]);
        assert(cur[k1] == name_hits(gs[i1], gpath, q, o)[j1]);
        assert(cur[k2] == name_hits(gs[i2], gpath, q, o)[j2]);
    } else {
        let j2 = k2 - prev.len();
        assert(cur[k2] == name_hits(gs[i - 1], gpath, q, o)[j2]);
        if k1 < prev.len() {
            lemma_child_hit_source(gs, i - 1, gpath, q, o, k1);
            let (i1, j1) = choose|i1: int, j1: int|
                0 <= i1 < i - 1 && 0 <= j1 < name_hits(gs[i1], gpath, q, o).len() && prev[k1]
                    == #[trigger] name_hits(gs[i1], gpath, q, o)[j1];
            assert(cur[k1] == prev[k1]);
            assert(cur[k1] == name_hits(gs[i1], gpath, q, o)[j1]);
        } else {
            let j1 = k1 - prev.len();
            assert(cur[k1] == name_hits(gs[i - 1], gpath, q, o)[j1]);
        }
    }
}

/// The split of a bare-name hit path below `g`: the accumulated prefix,
/// then the titles down to the entry.
proof fn lemma_name_hit_split_shape(g: Group, cur: Seq<char>, q: Seq<char>, o: SearchOptions, k: int)
    requires
        clean_tree(g),
        !has_slash(g.title@),
        cur.len() == 0 || cur[0] != '/',
        0 <= k < name_hits(g, cur, q, o).len(),
    ensures
        exists|segs: Seq<Seq<char>>|
            segs.len() >= 1 && #[trigger] spec_split(
                trim_slashes(name_hits(g, cur, q, o)[k].0),
            ) == split_pref(join_path(cur, g.title@)) + segs,
{
    lemma_name_hits_round_trip(g, cur, q, o, k);
    let gpath = join_path(cur, g.title@);
    let hit = name_hits(g, cur, q, o)[k];
    let segs = choose|segs: Seq<Seq<char>>|
        {
            &&& segs.len() >= 1
            &&& segs[0].len() > 0
            &&& spec_split(trim_slashes(hit.0)) == split_pref(gpath) + segs
            &&& #[trigger] abs_resolve(g, segs, 0) == AbsOutcome::FoundEntry(hit.1)
        };
    assert(spec_split(trim_slashes(hit.0)) == split_pref(gpath) + segs);
}

/// Distinct bare-name hits below one group carry distinct paths.
proof fn lemma_name_hits_distinct_paths(
    g: Group,
    cur: Seq<char>,
    q: Seq<char>,
    o: SearchOptions,
    k1: int,
    k2: int,
)
    requires
        clean_tree(g),
        !has_slash(g.title@),
        cur.len() == 0 || cur[0] != '/',
        0 <= k1 < k2 < name_hits(g, cur, q, o).len(),
    ensures
        name_hits(g, cur, q, o)[k1].0 != name_hits(g, cur, q, o)[k2].0,
    decreases g,
{
    let gpath = join_path(cur, g.title@);
    let hits = name_hits(g, cur, q, o);
    let eh = entry_name_hits_upto(g.entries@, g.entries@.len() as int, gpath, q, o);
    let ch = child_name_hits_upto(g.groups@, g.groups@.len() as int, gpath, q, o);
    assert(gpath.len() == 0 || gpath[0] != '/') by {
        if cur.len() > 0 {
            assert(gpath[0] == cur[0]);
        } else if g.title@.len() > 0 {
            if g.title@[0] == '/' {
                assert(has_slash(g.title@));
            }
        }
    }
    if hits[k1].0 == hits[k2].0 {
        // Under the assumption that the two paths are equal, a
        // contradiction follows in every case.
            if k2 < eh.len() {
            lemma_entry_hit_sources_ordered(g.entries@, g.entries@.len() as int, gpath, q, o, k1, k2);
            let (i1, i2) = choose|i1: int, i2: int|
                0 <= i1 < i2 < g.entries@.len() && eh[k1] == (
                name_entry_path(gpath, (#[trigger] g.entries@[i1]).title@),
                g.entries@[i1],
                ) && eh[k2] == (
                name_entry_path(gpath, (#[trigger] g.entries@[i2]).title@),
                g.entries@[i2],
                );
            let t1 = g.entries@[i1].title@;
            let t2 = g.entries@[i2].title@;
            assert(clean_title(t1) && clean_title(t2));
            lemma_path_split_of_entry(gpath, t1);
            lemma_path_split_of_entry(gpath, t2);
            assert((split_pref(gpath) + seq![t1])[split_pref(gpath).len() as int] == t1);
            assert((split_pref(gpath) + seq![t2])[split_pref(gpath).len() as int] == t2);
            assert(t1 == t2);
            assert(false);
        } else if k1 < eh.len() {
            lemma_entry_hit_source(g.entries@, g.entries@.len() as int, gpath, q, o, k1);
            let i1 = choose|i1: int|
                0 <= i1 < g.entries@.len() && spec_matches((#[trigger] g.entries@[i1]).title@, q, o)
                    && eh[k1] == (name_entry_path(gpath, g.entries@[i1].title@), g.entries@[i1]);
            let t1 = g.entries@[i1].title@;
            assert(clean_title(t1));
            lemma_path_split_of_entry(gpath, t1);
            let kc = k2 - eh.len();
            lemma_child_hit_source(g.groups@, g.groups@.len() as int, gpath, q, o, kc);
            let (i2, j2) = choose|i2: int, j2: int|
                0 <= i2 < g.groups@.len() && 0 <= j2 < name_hits(g.groups@[i2], gpath, q, o).len()
                    && ch[kc] == #[trigger] name_hits(g.groups@[i2], gpath, q, o)[j2];
            let child = g.groups@[i2];
            assert(clean_title(child.title@));
            lemma_clean_child(g.groups@, g.groups@.len() as int, i2);
            lemma_name_hit_split_shape(child, gpath, q, o, j2);
            let segs2 = choose|segs: Seq<Seq<char>>|
                segs.len() >= 1 && #[trigger] spec_split(
                    trim_slashes(name_hits(child, gpath, q, o)[j2].0),
                ) == split_pref(join_path(gpath, child.title@)) + segs;
            lemma_split_join(gpath, child.title@);
            // One split has one segment beyond the prefix, the other at least
            // two: equal paths are impossible.
            assert(spec_split(trim_slashes(hits[k1].0)).len() == split_pref(gpath).len() + 1);
            assert(spec_split(trim_slashes(hits[k2].0)).len() >= split_pref(gpath).len() + 2);
            assert(false);
        } else {
            let kc1 = k1 - eh.len();
            let kc2 = k2 - eh.len();
            lemma_child_hit_sources_ordered(g.groups@, g.groups@.len() as int, gpath, q, o, kc1, kc2);
            let (i1, j1, i2, j2) = choose|i1: int, j1: int, i2: int, j2: int|
                0 <= i1 <= i2 < g.groups@.len() && (i1 == i2 ==> j1 < j2) && 0 <= j1 && 0 <= j2
                    && j1 < name_hits(g.groups@[i1], gpath, q, o).len() && j2 < name_hits(
                    g.groups@[i2],
                    gpath,
                    q,
                    o,
                ).len() && ch[kc1] == #[trigger] name_hits(g.groups@[i1], gpath, q, o)[j1] && ch[kc2]
                    == #[trigger] name_hits(g.groups@[i2], gpath, q, o)[j2];
            lemma_clean_child(g.groups@, g.groups@.len() as int, i1);
            lemma_clean_child(g.groups@, g.groups@.len() as int, i2);
            let c1 = g.groups@[i1];
            let c2 = g.groups@[i2];
            assert(clean_title(c1.title@) && clean_title(c2.title@));
            if i1 == i2 {
                lemma_name_hits_distinct_paths(c1, gpath, q, o, j1, j2);
                assert(false);
            } else {
                lemma_name_hit_split_shape(c1, gpath, q, o, j1);
                lemma_name_hit_split_shape(c2, gpath, q, o, j2);
                let segs1 = choose|segs: Seq<Seq<char>>|
                    segs.len() >= 1 && #[trigger] spec_split(
                        trim_slashes(name_hits(c1, gpath, q, o)[j1].0),
                    ) == split_pref(join_path(gpath, c1.title@)) + segs;
                let segs2 = choose|segs: Seq<Seq<char>>|
                    segs.len() >= 1 && #[trigger] spec_split(
                        trim_slashes(name_hits(c2, gpath, q, o)[j2].0),
                    ) == split_pref(join_path(gpath, c2.title@)) + segs;
                lemma_split_join(gpath, c1.title@);
                lemma_split_join(gpath, c2.title@);
                let n = split_pref(gpath).len() as int;
                assert(spec_split(trim_slashes(hits[k1].0))[n] == c1.title@) by {
                    assert((split_pref(gpath) + seq![c1.title@] + segs1)[n] == c1.title@);
                    assert(split_pref(join_path(gpath, c1.title@)) + segs1 =~= split_pref(gpath)
                        + seq![c1.title@] + segs1);
                }
                assert(spec_split(trim_slashes(hits[k2].0))[n] == c2.title@) by {
                    assert((split_pref(gpath) + seq![c2.title@] + segs2)[n] == c2.title@);
                    assert(split_pref(join_path(gpath, c2.title@)) + segs2 =~= split_pref(gpath)
                        + seq![c2.title@] + segs2);
                }
                assert(c1.title@ == c2.title@);
                assert(c1.title@ != c2.title@);
                assert(false);
            }
    }
    }
}

/// The split of one entry hit path: the prefix plus the entry's title.
proof fn lemma_path_split_of_entry(gpath: Seq<char>, t: Seq<char>)
    requires
        gpath.len() == 0 || gpath[0] != '/',
        t.len() > 0,
        !has_slash(t),
    ensures
        spec_split(trim_slashes(name_entry_path(gpath, t))) == split_pref(gpath) + seq![t],
{
    let x = join_path(gpath, t);
    assert(x.len() > 0 && x[0] != '/') by {
        if t[0] == '/' {
            assert(has_slash(t));
        }
        if gpath.len() > 0 {
            assert(x[0] == gpath[0]);
        }
    }
    lemma_trim_single(x);
    lemma_split_join(gpath, t);
}

/// Law: over a tree whose paths are unambiguous — below the root every
/// title is nonempty, free of `/`, and distinct among its siblings, and
/// the root's own title is free of `/` — distinct bare-name results carry
/// distinct paths: one result per occurrence, each under its own path.
pub proof fn lemma_bare_name_paths_distinct(
    root: Group,
    q: Seq<char>,
    o: SearchOptions,
    k1: int,
    k2: int,
)
    requires
        clean_tree(root),
        !has_slash(root.title@),
        0 <= k1 < k2 < name_hits(root, Seq::empty(), q, o).len(),
    ensures
        name_hits(root, Seq::empty(), q, o)[k1].0 != name_hits(root, Seq::empty(), q, o)[k2].0,
{
    lemma_name_hits_distinct_paths(root, Seq::empty(), q, o, k1, k2);
}

/// The segments of a rooted accumulated path: none for the bare `/`.
pub open spec fn split_pref_abs(s: Seq<char>) -> Seq<Seq<char>> {
    if s == seq!['/'] {
        Seq::empty()
    } else {
        spec_split(trim_slashes(s))
    }
}

/// A rooted accumulated path: `/` alone, or `/` followed by a character
/// that is not another `/`.
pub open spec fn rooted_path(s: Seq<char>) -> bool {
    s == seq!['/'] || (s.len() >= 2 && s[0] == '/' && s[1] != '/')
}

/// Trimming the single leading `/` commutes with appending a component.
pub proof fn lemma_trim_chain(a: Seq<char>, b: Seq<char>)
    requires
        a.len() >= 2,
        a[0] == '/',
        a[1] != '/',
    ensures
        trim_slashes(a + seq!['/'] + b) == trim_slashes(a) + seq!['/'] + b,
{
    let s = a + seq!['/'] + b;
    lemma_first_non_slash_is(s, 0, 1);
    lemma_first_non_slash_is(a, 0, 1);
    assert(s.subrange(1, s.len() as int) =~= a.subrange(1, a.len() as int) + seq!['/'] + b);
}

/// Joining a clean title onto a rooted path appends one segment.
pub proof fn lemma_split_join_abs(a: Seq<char>, b: Seq<char>)
    requires
        rooted_path(a),
        b.len() > 0,
        !has_slash(b),
    ensures
        rooted_path(join_abs(a, b)),
        join_abs(a, b) != seq!['/'],
        spec_split(trim_slashes(join_abs(a, b))) == split_pref_abs(a) + seq![b],
{
    assert forall|k: int| 0 <= k < b.len() implies b[k] != '/' by {
        if b[k] == '/' {
            assert(has_slash(b));
        }
    }
    lemma_first_slash_is(b, 0, b.len() as int);
    assert(spec_split(b) =~= seq![b]);
    if a == seq!['/'] {
        let j = seq!['/'] + b;
        assert(join_abs(a, b) == j);
        lemma_trim_single(b);
        assert(trim_slashes(j) == b);
        assert(j[1] == b[0]);
        assert(spec_split(b) =~= split_pref_abs(a) + seq![b]);
    } else {
        let j = a + seq!['/'] + b;
        assert(join_abs(a, b) == j);
        lemma_trim_chain(a, b);
        lemma_split_concat(trim_slashes(a), b);
        assert(j[0] == a[0] && j[1] == a[1]);
    }
}

/// Each subpath candidate among a group's own entries comes from one
/// entry.
pub proof fn lemma_sub_entry_hit_source(
    es: Seq<Entry>,
    i: int,
    gpath: Seq<char>,
    t: Seq<char>,
    o: SearchOptions,
    k: int,
)
    requires
        0 <= i <= es.len(),
        0 <= k < entry_sub_hits_upto(es, i, gpath, t, o).len(),
    ensures
        exists|idx: int|
            0 <= idx < i && spec_matches((#[trigger] es[idx]).title@, t, o)
                && entry_sub_hits_upto(es, i, gpath, t, o)[k] == (
            join_abs(gpath, es[idx].title@),
            es[idx],
            ),
    decreases i,
{
    let prev = entry_sub_hits_upto(es, i - 1, gpath, t, o);
    if k < prev.len() {
        lemma_sub_entry_hit_source(es, i - 1, gpath, t, o, k);
        let idx = choose|idx: int|
            0 <= idx < i - 1 && spec_matches((#[trigger] es[idx]).title@, t, o) && prev[k] == (
            join_abs(gpath, es[idx].title@),
            es[idx],
            );
        assert(entry_sub_hits_upto(es, i, gpath, t, o)[k] == prev[k]);
        assert(spec_matches(es[idx].title@, t, o));
    } else {
        assert(spec_matches(es[i - 1].title@, t, o));
    }
}

/// Each subpath candidate below the children comes from one child's walk.
pub proof fn lemma_sub_child_hit_source(
    gs: Seq<Group>,
    i: int,
    gpath: Seq<char>,
    sp: Seq<Seq<char>>,
    t: Seq<char>,
    o: SearchOptions,
    k: int,
)
    requires
        0 <= i <= gs.len(),
        0 <= k < child_sub_hits_upto(gs, i, gpath, sp, t, o).len(),
    ensures
        exists|idx: int, k2: int|
            0 <= idx < i && 0 <= k2 < sub_hits(gs[idx], gpath, sp, t, o).len()
                && child_sub_hits_upto(gs, i, gpath, sp, t, o)[k] == #[trigger] sub_hits(
                gs[idx],
                gpath,
                sp,
                t,
                o,
            )[k2],
    decreases i,
{
    let prev = child_sub_hits_upto(gs, i - 1, gpath, sp, t, o);
    if k < prev.len() {
        lemma_sub_child_hit_source(gs, i - 1, gpath, sp, t, o, k);
        let (idx, k2) = choose|idx: int, k2: int|
            0 <= idx < i - 1 && 0 <= k2 < sub_hits(gs[idx], gpath, sp, t, o).len() && prev[k]
                == #[trigger] sub_hits(gs[idx], gpath, sp, t, o)[k2];
        assert(child_sub_hits_upto(gs, i, gpath, sp, t, o)[k] == prev[k]);
        assert(0 <= k2 < sub_hits(gs[idx], gpath, sp, t, o).len());
    } else {
        let k2 = k - prev.len();
        assert(child_sub_hits_upto(gs, i, gpath, sp, t, o)[k] == sub_hits(
            gs[i - 1],
            gpath,
            sp,
            t,
            o,
        )[k2]);
    }
}

/// Each kept result of the final substring filter is one of the
/// candidates.
pub proof fn lemma_filter_hit_source(hits: Seq<(Seq<char>, Entry)>, q: Seq<char>, i: int, k: int)
    requires
        0 <= i <= hits.len(),
        0 <= k < filter_hits_upto(hits, q, i).len(),
    ensures
        exists|idx: int|
            0 <= idx < i && #[trigger] hits[idx] == filter_hits_upto(hits, q, i)[k]
                && has_substring(hits[idx].0, q),
    decreases i,
{
    let prev = filter_hits_upto(hits, q, i - 1);
    if k < prev.len() {
        lemma_filter_hit_source(hits, q, i - 1, k);
        let idx = choose|idx: int|
            0 <= idx < i - 1 && #[trigger] hits[idx] == prev[k] && has_substring(hits[idx].0, q);
        assert(filter_hits_upto(hits, q, i)[k] == prev[k]);
        assert(hits[idx] == filter_hits_upto(hits, q, i)[k]);
    } else {
        assert(hits[i - 1] == filter_hits_upto(hits, q, i)[k]);
    }
}

/// The candidate at `p` for entry `e` survives the round trip from below
/// `g`: its path splits into the accumulated rooted prefix plus segments
/// that resolve from `g` to exactly `e`.
pub open spec fn round_trips_from_abs(g: Group, gpath: Seq<char>, p: Seq<char>, e: Entry) -> bool {
    exists|segs: Seq<Seq<char>>|
        {
            &&& segs.len() >= 1
            &&& segs[0].len() > 0
            &&& spec_split(trim_slashes(p)) == split_pref_abs(gpath) + segs
            &&& #[trigger] abs_resolve(g, segs, 0) == AbsOutcome::FoundEntry(e)
        }
}

proof fn lemma_sub_hits_round_trip(
    g: Group,
    cur: Seq<char>,
    sp: Seq<Seq<char>>,
    t: Seq<char>,
    o: SearchOptions,
    k: int,
)
    requires
        clean_tree(g),
        !has_slash(g.title@),
        rooted_path(cur),
        0 <= k < sub_hits(g, cur, sp, t, o).len(),
    ensures
        round_trips_from_abs(
            g,
            join_abs(cur, g.title@),
            sub_hits(g, cur, sp, t, o)[k].0,
            sub_hits(g, cur, sp, t, o)[k].1,
        ),
    decreases g,
{
    let gpath = join_abs(cur, g.title@);
    let hits = sub_hits(g, cur, sp, t, o);
    let own = if sp.len() == 1 {
        entry_sub_hits_upto(g.entries@, g.entries@.len() as int, gpath, t, o)
    } else {
        Seq::<(Seq<char>, Entry)>::empty()
    };
    let consumed = if sp.len() > 0 && spec_matches(g.title@, sp[0], o) {
        child_sub_hits_upto(g.groups@, g.groups@.len() as int, gpath, sp.drop_first(), t, o)
    } else {
        Seq::<(Seq<char>, Entry)>::empty()
    };
    let always = child_sub_hits_upto(g.groups@, g.groups@.len() as int, gpath, sp, t, o);
    assert(rooted_path(gpath)) by {
        if g.title@.len() > 0 {
            lemma_split_join_abs(cur, g.title@);
        }
    }
    if k < own.len() {
        lemma_sub_entry_hit_source(g.entries@, g.entries@.len() as int, gpath, t, o, k);
        let idx = choose|idx: int|
            0 <= idx < g.entries@.len() && spec_matches((#[trigger] g.entries@[idx]).title@, t, o)
                && own[k] == (join_abs(gpath, g.entries@[idx].title@), g.entries@[idx]);
        let te = g.entries@[idx].title@;
        assert(clean_title(te));
        assert(hits[k] == own[k]);
        lemma_split_join_abs(gpath, te);
        let segs = seq![te];
        assert(abs_resolve(g, segs, 0) == AbsOutcome::FoundEntry(g.entries@[idx])) by {
            lemma_first_entry_ix_of(g.entries@, idx);
        }
        assert(spec_split(trim_slashes(hits[k].0)) == split_pref_abs(gpath) + segs);
    } else {
        let in_consumed = k < own.len() + consumed.len();
        let k1 = if in_consumed {
            k - own.len()
        } else {
            k - own.len() - consumed.len()
        };
        let spc = if in_consumed {
            sp.drop_first()
        } else {
            sp
        };
        let branch = if in_consumed {
            consumed
        } else {
            always
        };
        assert(hits[k] == branch[k1]);
        lemma_sub_child_hit_source(g.groups@, g.groups@.len() as int, gpath, spc, t, o, k1);
        let (idx, k2) = choose|idx: int, k2: int|
            0 <= idx < g.groups@.len() && 0 <= k2 < sub_hits(g.groups@[idx], gpath, spc, t, o).len()
                && branch[k1] == #[trigger] sub_hits(g.groups@[idx], gpath, spc, t, o)[k2];
        let child = g.groups@[idx];
        let ct = child.title@;
        assert(clean_title(ct));
        lemma_clean_child(g.groups@, g.groups@.len() as int, idx);
        lemma_sub_hits_round_trip(child, gpath, spc, t, o, k2);
        let chits = sub_hits(child, gpath, spc, t, o);
        let segs0 = choose|segs: Seq<Seq<char>>|
            {
                &&& segs.len() >= 1
                &&& segs[0].len() > 0
                &&& spec_split(trim_slashes(chits[k2].0)) == split_pref_abs(join_abs(gpath, ct))
                    + segs
                &&& #[trigger] abs_resolve(child, segs, 0) == AbsOutcome::FoundEntry(chits[k2].1)
            };
        lemma_split_join_abs(gpath, ct);
        let segs = seq![ct] + segs0;
        assert(spec_split(trim_slashes(hits[k].0)) =~= split_pref_abs(gpath) + segs) by {
            assert((split_pref_abs(gpath) + seq![ct]) + segs0 =~= split_pref_abs(gpath) + (
            seq![ct] + segs0));
        }
        assert(abs_resolve(g, segs, 0) == AbsOutcome::FoundEntry(hits[k].1)) by {
            lemma_first_group_ix_of(g.groups@, idx);
            assert(segs[0] == ct);
            assert(segs.len() >= 2);
            lemma_abs_resolve_shift(child, segs, 1);
            assert(segs.subrange(1, segs.len() as int) =~= segs0);
        }
        assert(segs[0].len() > 0);
    }
}

/// The candidates a subpath query is filtered from.
pub open spec fn subpath_candidates(root: Group, q: Seq<char>, o: SearchOptions) -> Seq<
    (Seq<char>, Entry),
> {
    sub_hits(root, seq!['/'], spec_split(q).drop_last(), spec_split(q).last(), o)
}

/// Law (round trip): over a tree whose paths are unambiguous — below the
/// root every title is nonempty, free of `/`, and distinct among its
/// siblings, and the root's own title is free of `/` — the path of every
/// subpath-walk candidate (hence of every result the subpath strategy
/// returns, each being such a candidate) resolves, taken as an
/// absolute-path query, to exactly the entry it reported.
pub proof fn lemma_subpath_result_round_trip(root: Group, q: Seq<char>, o: SearchOptions, k: int)
    requires
        clean_tree(root),
        !has_slash(root.title@),
        0 <= k < subpath_candidates(root, q, o).len(),
    ensures
        ({
            let hit = subpath_candidates(root, q, o)[k];
            let parts = abs_parts(hit.0);
            let start = abs_start(root, parts);
            start < parts.len() && abs_resolve(root, parts, start) == AbsOutcome::FoundEntry(
                hit.1,
            )
        }),
{
    let sp = spec_split(q).drop_last();
    let t = spec_split(q).last();
    lemma_sub_hits_round_trip(root, seq!['/'], sp, t, o, k);
    let hit = subpath_candidates(root, q, o)[k];
    let gpath = join_abs(seq!['/'], root.title@);
    let segs = choose|segs: Seq<Seq<char>>|
        {
            &&& segs.len() >= 1
            &&& segs[0].len() > 0
            &&& spec_split(trim_slashes(hit.0)) == split_pref_abs(gpath) + segs
            &&& #[trigger] abs_resolve(root, segs, 0) == AbsOutcome::FoundEntry(hit.1)
        };
    let parts = abs_parts(hit.0);
    if root.title@.len() == 0 {
        assert(gpath == seq!['/']);
        assert(parts =~= segs);
        assert(parts[0].len() > 0);
        assert(abs_start(root, parts) == 0);
    } else {
        lemma_split_join_abs(seq!['/'], root.title@);
        assert(split_pref_abs(gpath) =~= seq![root.title@]);
        assert(parts =~= seq![root.title@] + segs);
        assert(parts[0] == root.title@);
        assert(abs_start(root, parts) == 1);
        lemma_abs_resolve_shift(root, parts, 1);
        assert(parts.subrange(1, parts.len() as int) =~= segs);
    }
}

/// The path separator as an owned string.
fn slash_string() -> (r: String)
    ensures
        r@ == seq!['/'],
{
    let mut r = String::new();
    r.append("/");
    proof {
        reveal_strlit("/");
        assert(r@ =~= seq!['/']);
    }
    r
}

/// Join a path and a title for the bare-name walk.
fn join_rel(cur: &str, name: &str) -> (r: String)
    ensures
        r@ == join_path(cur@, name@),
{
    if name.unicode_len() == 0 {
        cur.to_owned()
    } else if cur.unicode_len() == 0 {
        name.to_owned()
    } else {
        let mut r = cur.to_owned();
        r.append("/");
        r.append(name);
        proof {
            reveal_strlit("/");
            assert("/"@ =~= seq!['/']);
        }
        r
    }
}

/// Join a path and a title for the subpath walk.
fn join_slashed(cur: &str, name: &str) -> (r: String)
    ensures
        r@ == join_abs(cur@, name@),
{
    proof {
        reveal_strlit("/");
        assert("/"@ =~= seq!['/']);
    }
    if name.unicode_len() == 0 {
        cur.to_owned()
    } else if str_eq(cur, "/") {
        let mut r = String::new();
        r.append("/");
        r.append(name);
        r
    } else {
        let mut r = cur.to_owned();
        r.append("/");
        r.append(name);
        r
    }
}

/// Put a leading `/` before a path.
fn prepend_slash(p: &str) -> (r: String)
    ensures
        r@ == seq!['/'] + p@,
{
    let mut r = String::new();
    r.append("/");
    r.append(p);
    proof {
        reveal_strlit("/");
        assert("/"@ =~= seq!['/']);
    }
    r
}

} // verus!
