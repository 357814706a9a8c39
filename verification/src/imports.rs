//! Imports: the ordered set of paths a file includes, and the
//! traversal that loads every reachable file once, cycles tolerated.

use vstd::prelude::*;

use crate::SwhkdParser;
use crate::bindings::Binding;
use crate::bindings::BindingView;
use crate::bindings::bindings_view;
use crate::definition::DefView;
use crate::definition::Definition;
use crate::definition::defs_view;
use crate::text::lex_lt;
use crate::text::str_lt;

verus! {

/// `x` inserted into an ordered path list, unless already present.
pub open spec fn insert_path(q: Seq<Seq<char>>, x: Seq<char>) -> Seq<Seq<char>>
    decreases q.len(),
{
    if q.len() == 0 {
        seq![x]
    } else if lex_lt(x, q[0]) {
        seq![x] + q
    } else if x == q[0] {
        q
    } else {
        seq![q[0]] + insert_path(q.drop_first(), x)
    }
}

/// The views of a path list.
pub open spec fn paths_view(v: Seq<String>) -> Seq<Seq<char>> {
    v.map_values(|s: String| s@)
}

/// Insert a path into an ordered path list, keeping it de-duplicated.
#[verifier::loop_isolation(false)]
pub fn insert_import(q: &mut Vec<String>, x: String)
    ensures
        paths_view(final (q)@) == insert_path(paths_view(old(q)@), x@),
{
    let ghost orig = paths_view(q@);
    let mut i: usize = 0;
    proof {
        assert(orig.skip(0) =~= orig);
        assert(orig.take(0) =~= Seq::<Seq<char>>::empty());
    }
    loop
        invariant
            i <= q@.len(),
            paths_view(q@) == orig,
            insert_path(orig, x@) == orig.take(i as int) + insert_path(orig.skip(i as int), x@),
        decreases orig.len() - i,
    {
        if i == q.len() {
            proof {
                assert(orig.skip(i as int) =~= Seq::<Seq<char>>::empty());
            }
            q.push(x);
            proof {
                assert(paths_view(q@) =~= orig.take(i as int) + seq![x@]);
            }
            return ;
        }
        if str_lt(&x, &q[i]) {
            proof {
                assert(orig.skip(i as int)[0] == orig[i as int]);
                assert(orig[i as int] == q@[i as int]@);
            }
            q.insert(i, x);
            proof {
                assert(paths_view(q@) =~= orig.take(i as int) + (seq![x@] + orig.skip(i as int)));
            }
            return ;
        }
        let same = crate::text::chars_eq_str(&crate::text::chars_of_str(x.as_str()), q[i].as_str());
        if same {
            proof {
                assert(orig.skip(i as int)[0] == orig[i as int]);
                assert(orig[i as int] == q@[i as int]@);
                assert(orig.take(i as int) + orig.skip(i as int) =~= orig);
            }
            return ;
        }
        proof {
            assert(orig.skip(i as int)[0] == orig[i as int]);
            assert(orig[i as int] == q@[i as int]@);
            assert(orig.skip(i as int).drop_first() =~= orig.skip(i + 1));
            assert(orig.take(i + 1) =~= orig.take(i as int) + seq![orig[i as int]]);
            assert((orig.take(i as int) + seq![orig[i as int]]) + insert_path(orig.skip(i + 1), x@)
                =~= orig.take(i as int) + (seq![orig[i as int]] + insert_path(
                orig.skip(i + 1),
                x@,
            )));
        }
        i = i + 1;
    }
}

/// An import list in strictly ascending path order.
pub open spec fn paths_sorted(q: Seq<Seq<char>>) -> bool {
    forall|i: int| 0 <= i < q.len() - 1 ==> lex_lt(#[trigger] q[i], q[i + 1])
}

/// Insertion keeps an import list strictly sorted.
pub proof fn lemma_insert_path_sorted(q: Seq<Seq<char>>, x: Seq<char>)
    requires
        paths_sorted(q),
    ensures
        paths_sorted(insert_path(q, x)),
    decreases q.len(),
{
    if q.len() == 0 {
    } else if lex_lt(x, q[0]) {
        let r = seq![x] + q;
        assert forall|i: int| 0 <= i < r.len() - 1 implies lex_lt(#[trigger] r[i], r[i + 1]) by {
            if i == 0 {
                assert(r[0] == x && r[1] == q[0]);
            } else {
                assert(r[i] == q[i - 1] && r[i + 1] == q[i]);
            }
        }
    } else if x == q[0] {
    } else {
        let tail = q.drop_first();
        assert forall|i: int| 0 <= i < tail.len() - 1 implies lex_lt(
            #[trigger] tail[i],
            tail[i + 1],
        ) by {
            assert(tail[i] == q[i + 1] && tail[i + 1] == q[i + 2]);
        }
        lemma_insert_path_sorted(tail, x);
        let rec = insert_path(tail, x);
        let r = seq![q[0]] + rec;
        assert(lex_lt(q[0], x)) by {
            crate::text::lemma_lex_lt_total(x, q[0]);
        }
        assert forall|i: int| 0 <= i < r.len() - 1 implies lex_lt(#[trigger] r[i], r[i + 1]) by {
            if i == 0 {
                assert(r[0] == q[0]);
                if tail.len() == 0 {
                    assert(rec =~= seq![x]);
                    assert(r[1] == x);
                } else {
                    if lex_lt(x, tail[0]) {
                        assert(rec == seq![x] + tail);
                        assert(r[1] == x);
                    } else if x == tail[0] {
                        assert(rec == tail);
                        assert(r[1] == tail[0]);
                        assert(tail[0] == q[1]);
                        assert(lex_lt(q[0], q[1]));
                    } else {
                        assert(rec == seq![tail[0]] + insert_path(tail.drop_first(), x));
                        assert(r[1] == tail[0]);
                        assert(tail[0] == q[1]);
                        assert(lex_lt(q[0], q[1]));
                    }
                }
            } else {
                assert(r[i] == rec[i - 1] && r[i + 1] == rec[i]);
            }
        }
    }
}

/// A strictly sorted import list holds each path once.
pub proof fn lemma_sorted_paths_unique(q: Seq<Seq<char>>)
    requires
        paths_sorted(q),
    ensures
        forall|i: int, j: int|
            #![trigger q[i], q[j]]
            0 <= i < j < q.len() ==> q[i] != q[j],
{
    assert forall|i: int, j: int| #![trigger q[i], q[j]] 0 <= i < j < q.len() implies q[i]
        != q[j] by {
        lemma_sorted_pairwise(q, i, j);
        crate::text::lemma_lex_lt_irrefl(q[i]);
    }
}

proof fn lemma_sorted_pairwise(q: Seq<Seq<char>>, i: int, j: int)
    requires
        paths_sorted(q),
        0 <= i < j < q.len(),
    ensures
        lex_lt(q[i], q[j]),
    decreases j - i,
{
    if j == i + 1 {
    } else {
        lemma_sorted_pairwise(q, i, j - 1);
        crate::text::lemma_lex_lt_trans(q[i], q[j - 1], q[j]);
    }
}

/// `insert_path` either leaves the list alone (the path was present)
/// or inserts the path at one position.
pub proof fn lemma_insert_path_shape(q: Seq<Seq<char>>, x: Seq<char>)
    ensures
        (insert_path(q, x) == q && q.contains(x)) || exists|i: int|
            0 <= i <= q.len() && insert_path(q, x) == #[trigger] q.insert(i, x),
    decreases q.len(),
{
    if q.len() == 0 {
        assert(insert_path(q, x) =~= q.insert(0, x));
        assert(insert_path(q, x) == q.insert(0, x));
    } else if lex_lt(x, q[0]) {
        assert(seq![x] + q =~= q.insert(0, x));
        assert(insert_path(q, x) == q.insert(0, x));
    } else if x == q[0] {
        assert(q.contains(x)) by {
            assert(q[0] == x);
        }
    } else {
        lemma_insert_path_shape(q.drop_first(), x);
        if insert_path(q.drop_first(), x) == q.drop_first() && q.drop_first().contains(x) {
            assert(seq![q[0]] + q.drop_first() =~= q);
            assert(q.contains(x)) by {
                let i = choose|i: int|
                    0 <= i < q.drop_first().len() && q.drop_first()[i] == x;
                assert(q[i + 1] == x);
            }
        } else {
            let i = choose|i: int|
                0 <= i <= q.drop_first().len() && insert_path(q.drop_first(), x)
                    == #[trigger] q.drop_first().insert(i, x);
            assert(seq![q[0]] + q.drop_first().insert(i, x) =~= q.insert(i + 1, x));
            assert(insert_path(q, x) == q.insert(i + 1, x));
        }
    }
}

/// Inserting into a sequence at any position adds the element to its
/// set.
proof fn lemma_seq_insert_to_set(q: Seq<Seq<char>>, i: int, x: Seq<char>)
    requires
        0 <= i <= q.len(),
    ensures
        q.insert(i, x).to_set() == q.to_set().insert(x),
{
    broadcast use vstd::set::group_set_axioms;

    let r = q.insert(i, x);
    assert forall|a: Seq<char>| #[trigger] r.contains(a) implies (a == x || q.contains(a)) by {
        let j = choose|j: int| 0 <= j < r.len() && r[j] == a;
        if j < i {
            assert(q[j] == a);
        } else if j > i {
            assert(q[j - 1] == a);
        }
    }
    assert forall|a: Seq<char>| #[trigger] q.contains(a) implies r.contains(a) by {
        let j = choose|j: int| 0 <= j < q.len() && q[j] == a;
        if j < i {
            assert(r[j] == a);
        } else {
            assert(r[j + 1] == a);
        }
    }
    assert(r[i] == x);
    assert(r.contains(x));
    assert(r.to_set() =~= q.to_set().insert(x));
}

/// Inserting a path into an ordered list adds it to the set of paths.
pub proof fn lemma_insert_path_set(q: Seq<Seq<char>>, x: Seq<char>)
    ensures
        insert_path(q, x).to_set() == q.to_set().insert(x),
{
    broadcast use vstd::set::group_set_axioms;

    lemma_insert_path_shape(q, x);
    if insert_path(q, x) == q && q.contains(x) {
        assert(q.to_set().insert(x) =~= q.to_set());
    } else {
        let i = choose|i: int|
            0 <= i <= q.len() && insert_path(q, x) == #[trigger] q.insert(i, x);
        lemma_seq_insert_to_set(q, i, x);
    }
}

/// A sequence's set holds exactly its elements.
proof fn lemma_paths_set_contains(v: Seq<Seq<char>>, x: Seq<char>)
    ensures
        v.to_set().contains(x) == v.contains(x),
{
    broadcast use vstd::set::group_set_axioms;

}

/// Whether `p` is among the paths of `seen`.
fn contains_path(seen: &Vec<String>, p: &String) -> (r: bool)
    ensures
        r == paths_view(seen@).to_set().contains(p@),
        r == paths_view(seen@).contains(p@),
{
    proof {
        lemma_paths_set_contains(paths_view(seen@), p@);
    }
    let mut i: usize = 0;
    while i < seen.len()
        invariant
            i <= seen@.len(),
            forall|j: int| 0 <= j < i ==> #[trigger] paths_view(seen@)[j] != p@,
        decreases seen@.len() - i,
    {
        if seen[i] == *p {
            proof {
                assert(paths_view(seen@)[i as int] == p@);
                assert(paths_view(seen@).contains(p@));
            }
            return true;
        }
        proof {
            assert(paths_view(seen@)[i as int] == seen@[i as int]@);
        }
        i = i + 1;
    }
    proof {
        if paths_view(seen@).contains(p@) {
            let j = choose|j: int|
                0 <= j < paths_view(seen@).len() && paths_view(seen@)[j] == p@;
            assert(false);
        }
    }
    false
}

/// An in-memory set of configuration files: each entry a path and the
/// text the file holds. The first entry with a path wins.
#[derive(Debug)]
pub struct FileMap {
    pub entries: Vec<(String, String)>,
}

/// The text filed under this path.
pub open spec fn file_lookup(entries: Seq<(String, String)>, p: Seq<char>) -> Option<Seq<char>>
    decreases entries.len(),
{
    if entries.len() == 0 {
        None
    } else if entries[0].0@ == p {
        Some(entries[0].1@)
    } else {
        file_lookup(entries.drop_first(), p)
    }
}

/// The set of paths the map files anything under.
pub open spec fn file_paths(entries: Seq<(String, String)>) -> Set<Seq<char>> {
    entries.map_values(|e: (String, String)| e.0@).to_set()
}

proof fn lemma_file_lookup_in_paths(entries: Seq<(String, String)>, p: Seq<char>)
    requires
        file_lookup(entries, p) is Some,
    ensures
        file_paths(entries).contains(p),
    decreases entries.len(),
{
    broadcast use vstd::set::group_set_axioms;

    if entries.len() > 0 {
        let mapped = entries.map_values(|e: (String, String)| e.0@);
        if entries[0].0@ == p {
            assert(mapped[0] == p);
            assert(mapped.contains(p));
        } else {
            lemma_file_lookup_in_paths(entries.drop_first(), p);
            let mtail = entries.drop_first().map_values(|e: (String, String)| e.0@);
            let i = choose|i: int| 0 <= i < mtail.len() && mtail[i] == p;
            assert(mapped[i + 1] == p);
            assert(mapped.contains(p));
        }
    }
}

proof fn lemma_file_unseen_decreases(
    entries: Seq<(String, String)>,
    seen: Set<Seq<char>>,
    p: Seq<char>,
)
    requires
        file_paths(entries).contains(p),
        !seen.contains(p),
    ensures
        file_paths(entries).difference(seen.insert(p)).len() < file_paths(entries).difference(
            seen,
        ).len(),
{
    broadcast use vstd::set::group_set_axioms;
    broadcast use vstd::seq_lib::seq_to_set_is_finite;

    let d1 = file_paths(entries).difference(seen);
    let d2 = file_paths(entries).difference(seen.insert(p));
    assert(file_paths(entries).finite());
    assert(d1.finite());
    assert(d2 =~= d1.remove(p));
    assert(d1.contains(p));
    assert(d1.remove(p).len() == d1.len() - 1);
}

impl FileMap {
    /// An empty file set.
    pub fn new() -> (m: FileMap)
        ensures
            m.entries@.len() == 0,
    {
        FileMap { entries: Vec::new() }
    }

    /// File this text under this path.
    pub fn insert(&mut self, path: String, contents: String)
        ensures
            final (self).entries@ == old(self).entries@.push((path, contents)),
    {
        self.entries.push((path, contents));
    }

    /// The text filed under this path, if any.
    pub fn lookup(&self, path: &str) -> (r: Option<&String>)
        ensures
            match r {
                Some(c) => file_lookup(self.entries@, path@) == Some(c@),
                None => file_lookup(self.entries@, path@) is None,
            },
    {
        let mut i: usize = 0;
        proof {
            assert(self.entries@.skip(0) =~= self.entries@);
        }
        while i < self.entries.len()
            invariant
                i <= self.entries@.len(),
                file_lookup(self.entries@, path@) == file_lookup(
                    self.entries@.skip(i as int),
                    path@,
                ),
            decreases self.entries@.len() - i,
        {
            proof {
                assert(self.entries@.skip(i as int)[0] == self.entries@[i as int]);
                assert(self.entries@.skip(i as int).drop_first() =~= self.entries@.skip(i + 1));
            }
            if crate::text::string_eq_str(&self.entries[i].0, path) {
                return Some(&self.entries[i].1);
            }
            i = i + 1;
        }
        proof {
            assert(self.entries@.skip(self.entries@.len() as int) =~= Seq::<
                (String, String),
            >::empty());
        }
        None
    }
}


/// Membership survives an ordered insertion.
pub proof fn lemma_insert_path_contains(q: Seq<Seq<char>>, x: Seq<char>, y: Seq<char>)
    requires
        q.contains(y),
    ensures
        insert_path(q, x).contains(y),
{
    lemma_insert_path_shape(q, x);
    if insert_path(q, x) == q && q.contains(x) {
    } else {
        let i = choose|i: int|
            0 <= i <= q.len() && insert_path(q, x) == #[trigger] q.insert(i, x);
        let j = choose|j: int| 0 <= j < q.len() && q[j] == y;
        if j < i {
            assert(q.insert(i, x)[j] == y);
        } else {
            assert(q.insert(i, x)[j + 1] == y);
        }
    }
}

/// How many filed paths are not yet seen.
pub open spec fn file_unseen(entries: Seq<(String, String)>, seen: Seq<Seq<char>>) -> nat {
    file_paths(entries).difference(seen.to_set()).len()
}

/// The outcome of walking the import worklist over the file set:
/// bindings, unbinds and modes in the order the files are reached, and
/// the ordered list of paths taken.
pub struct WalkOut {
    pub bindings: Seq<BindingView>,
    pub unbinds: Seq<DefView>,
    pub modes: Seq<crate::ModeView>,
    pub seen: Seq<Seq<char>>,
}

/// A fault met while walking: the originating file's path and what
/// went wrong there.
pub struct WalkErr {
    pub path: Seq<char>,
    pub err: crate::grammar::ErrView,
}

/// Walk the import worklist over the file set: pop the first path; a
/// path already seen is skipped; otherwise it is marked seen, its text
/// is looked up and parsed, its declarations are taken in, and its own
/// imports go to the front of the worklist (the traversal is depth
/// first). A path with no file, or one whose text fails to parse, is
/// that fault, named with its path.
pub open spec fn walk_src(
    entries: Seq<(String, String)>,
    work: Seq<Seq<char>>,
    seen: Seq<Seq<char>>,
) -> Result<WalkOut, WalkErr>
    decreases file_unseen(entries, seen), work.len(),
    via walk_src_dec
{
    if work.len() == 0 {
        Ok(
            WalkOut {
                bindings: Seq::empty(),
                unbinds: Seq::empty(),
                modes: Seq::empty(),
                seen,
            },
        )
    } else {
        let p = work[0];
        if seen.contains(p) {
            walk_src(entries, work.drop_first(), seen)
        } else {
            match file_lookup(entries, p) {
                None => Err(
                    WalkErr { path: p, err: crate::grammar::ErrView::NoFile { path: p } },
                ),
                Some(text) => match crate::spec_parse_checked(text) {
                    Err(ev) => Err(WalkErr { path: p, err: ev }),
                    Ok(pf) => match walk_src(
                        entries,
                        pf.imports + work.drop_first(),
                        insert_path(seen, p),
                    ) {
                        Err(we) => Err(we),
                        Ok(rest) => Ok(
                            WalkOut {
                                bindings: pf.bindings + rest.bindings,
                                unbinds: pf.unbinds + rest.unbinds,
                                modes: pf.modes + rest.modes,
                                seen: rest.seen,
                            },
                        ),
                    },
                },
            }
        }
    }
}

#[via_fn]
proof fn walk_src_dec(entries: Seq<(String, String)>, work: Seq<Seq<char>>, seen: Seq<Seq<char>>) {
    if work.len() > 0 {
        let p = work[0];
        if !seen.contains(p) {
            match file_lookup(entries, p) {
                None => {
                },
                Some(text) => {
                    match crate::spec_parse_checked(text) {
                        Err(_) => {
                        },
                        Ok(_) => {
                            lemma_file_lookup_in_paths(entries, p);
                            lemma_paths_set_contains(seen, p);
                            lemma_insert_path_set(seen, p);
                            lemma_file_unseen_decreases(entries, seen.to_set(), p);
                        },
                    }
                },
            }
        }
    }
}

/// Law: a worklist entry whose path was already seen changes nothing —
/// inserting such a path anywhere in the worklist leaves the walk's
/// outcome as it was. Every file's own path is marked seen before its
/// import list is walked, so a file that includes itself resolves to
/// the same configuration as without the self-include.
#[verifier::rlimit(60)]
pub proof fn lemma_seen_insert_skipped(
    entries: Seq<(String, String)>,
    work: Seq<Seq<char>>,
    seen: Seq<Seq<char>>,
    i: int,
    p: Seq<char>,
)
    requires
        seen.contains(p),
        0 <= i <= work.len(),
    ensures
        walk_src(entries, work.insert(i, p), seen) == walk_src(entries, work, seen),
    decreases file_unseen(entries, seen), work.len(),
{
    let w2 = work.insert(i, p);
    if i == 0 {
        assert(w2[0] == p);
        assert(w2.drop_first() =~= work);
    } else {
        assert(w2[0] == work[0]);
        let h = work[0];
        if seen.contains(h) {
            assert(w2.drop_first() =~= work.drop_first().insert(i - 1, p));
            lemma_seen_insert_skipped(entries, work.drop_first(), seen, i - 1, p);
        } else {
            match file_lookup(entries, h) {
                None => {
                },
                Some(text) => {
                    match crate::spec_parse_checked(text) {
                        Err(_) => {
                        },
                        Ok(pf) => {
                            lemma_file_lookup_in_paths(entries, h);
                            lemma_paths_set_contains(seen, h);
                            lemma_insert_path_set(seen, h);
                            lemma_file_unseen_decreases(entries, seen.to_set(), h);
                            lemma_insert_path_contains(seen, h, p);
                            let base = pf.imports;
                            assert(base + w2.drop_first() =~= (base + work.drop_first()).insert(
                                base.len() + i - 1,
                                p,
                            ));
                            lemma_seen_insert_skipped(
                                entries,
                                base + work.drop_first(),
                                insert_path(seen, h),
                                base.len() + i - 1,
                                p,
                            );
                        },
                    }
                },
            }
        }
    }
}

/// Law: adding a self-include to a file's ordered import list leaves
/// the walk of that list unchanged, whenever the file's own path is
/// already seen — as it always is when its list is walked.
pub proof fn lemma_self_include_idempotent(
    entries: Seq<(String, String)>,
    imports: Seq<Seq<char>>,
    seen: Seq<Seq<char>>,
    p: Seq<char>,
)
    requires
        seen.contains(p),
    ensures
        walk_src(entries, insert_path(imports, p), seen) == walk_src(entries, imports, seen),
{
    lemma_insert_path_shape(imports, p);
    if insert_path(imports, p) != imports {
        let i = choose|i: int|
            0 <= i <= imports.len() && insert_path(imports, p) == #[trigger] imports.insert(i, p);
        lemma_seen_insert_skipped(entries, imports, seen, i, p);
    }
}

/// Walk the worklist of import paths over the file set, reading and
/// parsing each unseen path once, depth first, in deterministic order;
/// a path already seen is skipped. Returns the gathered bindings,
/// unbinds and modes, and the ordered list of paths taken — exactly
/// the `walk_src` of the file set. A missing file or a failing parse
/// is that error, a grammar fault naming its originating file.
#[verifier::loop_isolation(false)]
#[verifier::rlimit(60)]
pub fn walk_files(files: &FileMap, work: Vec<String>) -> (r: Result<
    (Vec<Binding>, Vec<Definition>, Vec<crate::Mode>, Vec<String>),
    crate::errors::ParseError,
>)
    ensures
        match r {
            Ok((b, u, m, sn)) => walk_src(files.entries@, paths_view(work@), Seq::empty())
                == Ok::<_, WalkErr>(
                WalkOut {
                    bindings: bindings_view(b@),
                    unbinds: defs_view(u@),
                    modes: crate::modes_view(m@),
                    seen: paths_view(sn@),
                },
            ) && crate::grammar::omission_free(b@) && (forall|i: int|
                0 <= i < m@.len() ==> crate::grammar::omission_free(
                    (#[trigger] m@[i]).bindings@,
                )) && paths_sorted(paths_view(sn@)),
            Err(e) => walk_src(files.entries@, paths_view(work@), Seq::empty()) matches Err(we)
                && crate::grammar::err_matches(e, we.err) && (e
                matches crate::errors::ParseError::Grammar(g) ==> g.path@ == we.path),
        },
{
    let ghost w0 = paths_view(work@);
    let mut work = work;
    let mut out_b: Vec<Binding> = Vec::new();
    let mut out_u: Vec<Definition> = Vec::new();
    let mut out_m: Vec<crate::Mode> = Vec::new();
    let mut seen: Vec<String> = Vec::new();
    proof {
        assert(bindings_view(out_b@) =~= Seq::<BindingView>::empty());
        assert(defs_view(out_u@) =~= Seq::<DefView>::empty());
        assert(crate::modes_view(out_m@) =~= Seq::<crate::ModeView>::empty());
        assert(paths_view(seen@) =~= Seq::<Seq<char>>::empty());
    }
    loop
        invariant
            crate::grammar::omission_free(out_b@),
            forall|i: int|
                0 <= i < out_m@.len() ==> crate::grammar::omission_free(
                    (#[trigger] out_m@[i]).bindings@,
                ),
            paths_sorted(paths_view(seen@)),
            (match walk_src(files.entries@, paths_view(work@), paths_view(seen@)) {
                Ok(rest) => walk_src(files.entries@, w0, Seq::empty()) == Ok::<_, WalkErr>(
                    WalkOut {
                        bindings: bindings_view(out_b@) + rest.bindings,
                        unbinds: defs_view(out_u@) + rest.unbinds,
                        modes: crate::modes_view(out_m@) + rest.modes,
                        seen: rest.seen,
                    },
                ),
                Err(we) => walk_src(files.entries@, w0, Seq::empty()) == Err::<WalkOut, _>(we),
            }),
        decreases file_unseen(files.entries@, paths_view(seen@)), work@.len(),
    {
        if work.len() == 0 {
            break ;
        }
        let ghost pre_work = paths_view(work@);
        let ghost pre_seen = paths_view(seen@);
        let p = work.remove(0);
        proof {
            assert(paths_view(work@) =~= pre_work.drop_first());
            assert(p@ == pre_work[0]);
        }
        if contains_path(&seen, &p) {
            continue ;
        }
        let contents = match files.lookup(p.as_str()) {
            Some(c) => c,
            None => {
                return Err(
                    crate::errors::ParseError::ConfigRead(
                        crate::errors::ConfigReadError::ReadingConfig(p),
                    ),
                );
            },
        };
        let child = match crate::parse_checked(contents) {
            Ok(c) => c,
            Err(e) => {
                let e2 = e.with_path(p.as_str());
                proof {
                    assert(crate::grammar::err_matches(
                        e2,
                        crate::spec_parse_checked(contents@)->Err_0,
                    ));
                }
                return Err(e2);
            },
        };
        insert_import(&mut seen, p.clone());
        proof {
            lemma_insert_path_set(pre_seen, p@);
            lemma_insert_path_sorted(pre_seen, p@);
            lemma_file_lookup_in_paths(files.entries@, p@);
            lemma_paths_set_contains(pre_seen, p@);
            lemma_file_unseen_decreases(files.entries@, pre_seen.to_set(), p@);
        }
        let ghost pf = crate::grammar::config_view(&child);
        let ghost pre_b = bindings_view(out_b@);
        let ghost pre_u = defs_view(out_u@);
        let ghost pre_m = crate::modes_view(out_m@);
        let ghost pre_ob = out_b@;
        let ghost pre_om = out_m@;
        let crate::SwhkdParser { bindings: mut cb, unbinds: mut cu, imports: ci, modes: mut cm } =
            child;
        out_b.append(&mut cb);
        out_u.append(&mut cu);
        out_m.append(&mut cm);
        let mut nw = ci;
        nw.append(&mut work);
        work = nw;
        proof {
            assert(bindings_view(out_b@) =~= pre_b + pf.bindings);
            assert(defs_view(out_u@) =~= pre_u + pf.unbinds);
            assert(crate::modes_view(out_m@) =~= pre_m + pf.modes);
            assert(paths_view(work@) =~= pf.imports + pre_work.drop_first());
            assert forall|i: int| 0 <= i < out_b@.len() implies crate::grammar::no_omission(
                (#[trigger] out_b@[i]).definition.modifiers@,
            ) by {
                if i < pre_ob.len() {
                    assert(out_b@[i] == pre_ob[i]);
                }
            }
            assert forall|i: int| 0 <= i < out_m@.len() implies crate::grammar::omission_free(
                (#[trigger] out_m@[i]).bindings@,
            ) by {
                if i < pre_om.len() {
                    assert(out_m@[i] == pre_om[i]);
                }
            }
            let rest0 = walk_src(files.entries@, pre_work, pre_seen);
            let inner = walk_src(
                files.entries@,
                pf.imports + pre_work.drop_first(),
                insert_path(pre_seen, p@),
            );
            match inner {
                Ok(rest) => {
                    assert(pre_b + (pf.bindings + rest.bindings) =~= (pre_b + pf.bindings)
                        + rest.bindings);
                    assert(pre_u + (pf.unbinds + rest.unbinds) =~= (pre_u + pf.unbinds)
                        + rest.unbinds);
                    assert(pre_m + (pf.modes + rest.modes) =~= (pre_m + pf.modes) + rest.modes);
                },
                Err(we) => {
                },
            }
        }
    }
    proof {
        let fin = walk_src(files.entries@, paths_view(work@), paths_view(seen@));
        assert(fin matches Ok(rest) && rest.bindings == Seq::<BindingView>::empty());
        assert(bindings_view(out_b@) + Seq::<BindingView>::empty() =~= bindings_view(out_b@));
        assert(defs_view(out_u@) + Seq::<DefView>::empty() =~= defs_view(out_u@));
        assert(crate::modes_view(out_m@) + Seq::<crate::ModeView>::empty() =~= crate::modes_view(
            out_m@,
        ));
    }
    Ok((out_b, out_u, out_m, seen))
}

} // verus!
