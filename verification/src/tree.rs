//! Building the aggregate chapter tree from the collected extracts.
//!
//! Extracts whose key path is exhausted become the node's own body, in
//! arrival order; the rest are grouped by the last (innermost) segment of
//! their key path, and each group becomes a child chapter, children sorted
//! by group label, numbered from 1 in sorted order.

use vstd::prelude::*;

use crate::book::{BookItem, Chapter};
use crate::extract::{clone_strings, Extract, ExtractV};
use crate::text::{join_sep, lex_lt};

verus! {

/// The heading a node's body starts with: `"## "` followed by the ancestor
/// labels and the node's own label joined with `" / "`.
pub open spec fn heading_of(parent: Seq<Seq<char>>, name: Seq<char>) -> Seq<char> {
    seq!['#', '#', ' '] + join_sep(parent.push(name))
}

/// `e` with the last (innermost) key segment consumed.
pub open spec fn popped(e: ExtractV) -> ExtractV {
    ExtractV { key: e.key.drop_last(), val: e.val }
}

/// The extracts of `es` whose key path ends in segment `k`, in order, each
/// with that segment consumed.
pub open spec fn group_of(es: Seq<ExtractV>, k: Seq<char>) -> Seq<ExtractV>
    decreases es.len(),
{
    if es.len() == 0 {
        Seq::empty()
    } else {
        let rest = group_of(es.drop_last(), k);
        let e = es.last();
        if e.key.len() > 0 && e.key.last() == k {
            rest.push(popped(e))
        } else {
            rest
        }
    }
}

/// The set of distinct last key segments over the keyed extracts of `es`.
pub open spec fn group_keys(es: Seq<ExtractV>) -> Set<Seq<char>> {
    Set::new(
        |k: Seq<char>|
            exists|i: int|
                0 <= i < es.len() && (#[trigger] es[i]).key.len() > 0 && es[i].key.last() == k,
    )
}

/// The body of a node: `init` followed by the values of the unkeyed
/// extracts of `es` in order, each preceded by a blank line.
pub open spec fn body_text(es: Seq<ExtractV>, init: Seq<char>) -> Seq<char>
    decreases es.len(),
{
    if es.len() == 0 {
        init
    } else {
        let prefix = body_text(es.drop_last(), init);
        let e = es.last();
        if e.key.len() == 0 {
            prefix + seq!['\n', '\n'] + e.val
        } else {
            prefix
        }
    }
}

/// The length of the longest key path in `es`.
pub open spec fn max_key_len(es: Seq<ExtractV>) -> nat
    decreases es.len(),
{
    if es.len() == 0 {
        0
    } else {
        let m = max_key_len(es.drop_last());
        if es.last().key.len() > m {
            es.last().key.len()
        } else {
            m
        }
    }
}

/// Grouping never grows a group beyond its source.
pub proof fn lemma_group_len(es: Seq<ExtractV>, k: Seq<char>)
    ensures
        group_of(es, k).len() <= es.len(),
    decreases es.len(),
{
    if es.len() > 0 {
        lemma_group_len(es.drop_last(), k);
    }
}

/// A non-empty group's longest key path is strictly shorter than its
/// source's: grouping consumed one segment from every member.
pub proof fn lemma_group_max(es: Seq<ExtractV>, k: Seq<char>)
    ensures
        group_of(es, k).len() > 0 ==> max_key_len(es) >= 1 && max_key_len(group_of(es, k))
            < max_key_len(es),
    decreases es.len(),
{
    if es.len() > 0 {
        let rest = group_of(es.drop_last(), k);
        lemma_group_max(es.drop_last(), k);
        let e = es.last();
        if e.key.len() > 0 && e.key.last() == k {
            assert(group_of(es, k) == rest.push(popped(e)));
            assert(rest.push(popped(e)).drop_last() =~= rest);
            assert(rest.push(popped(e)).last() == popped(e));
            assert(max_key_len(group_of(es, k)) == if popped(e).key.len() > max_key_len(rest) {
                popped(e).key.len()
            } else {
                max_key_len(rest)
            });
            assert(max_key_len(es.drop_last()) <= max_key_len(es));
            assert(e.key.len() <= max_key_len(es));
        } else {
            assert(max_key_len(es.drop_last()) <= max_key_len(es));
        }
    }
}

/// How the grouping quantities change when one extract `es[j]` is taken
/// into account.
pub proof fn lemma_group_step(es: Seq<ExtractV>, j: int)
    requires
        0 <= j < es.len(),
    ensures
        es.take(j + 1).drop_last() =~= es.take(j),
        es.take(j + 1).last() == es[j],
        es[j].key.len() == 0 ==> forall|k: Seq<char>|
            #[trigger] group_of(es.take(j + 1), k) == group_of(es.take(j), k),
        es[j].key.len() == 0 ==> group_keys(es.take(j + 1)) == group_keys(es.take(j)),
        es[j].key.len() == 0 ==> forall|init: Seq<char>|
            #[trigger] body_text(es.take(j + 1), init) == body_text(es.take(j), init)
                + seq!['\n', '\n'] + es[j].val,
        es[j].key.len() > 0 ==> forall|k: Seq<char>|
            k != es[j].key.last() ==> #[trigger] group_of(es.take(j + 1), k) == group_of(
                es.take(j),
                k,
            ),
        es[j].key.len() > 0 ==> group_of(es.take(j + 1), es[j].key.last()) == group_of(
            es.take(j),
            es[j].key.last(),
        ).push(popped(es[j])),
        es[j].key.len() > 0 ==> group_keys(es.take(j + 1)) == group_keys(es.take(j)).insert(
            es[j].key.last(),
        ),
        es[j].key.len() > 0 ==> forall|init: Seq<char>|
            #[trigger] body_text(es.take(j + 1), init) == body_text(es.take(j), init),
{
    let a = es.take(j + 1);
    let b = es.take(j);
    assert(a.drop_last() =~= b);
    assert(a.last() == es[j]);
    assert(forall|i: int| 0 <= i < j ==> a[i] == es[i] && b[i] == es[i]);
    if es[j].key.len() == 0 {
        assert forall|k: Seq<char>| #[trigger]
            group_keys(a).contains(k) implies group_keys(b).contains(k) by {
            let i = choose|i: int|
                0 <= i < a.len() && (#[trigger] a[i]).key.len() > 0 && a[i].key.last() == k;
            assert(b[i].key.len() > 0 && b[i].key.last() == k);
        }
        assert forall|k: Seq<char>| #[trigger]
            group_keys(b).contains(k) implies group_keys(a).contains(k) by {
            let i = choose|i: int|
                0 <= i < b.len() && (#[trigger] b[i]).key.len() > 0 && b[i].key.last() == k;
            assert(a[i].key.len() > 0 && a[i].key.last() == k);
        }
        assert(group_keys(a) =~= group_keys(b));
    } else {
        let kk = es[j].key.last();
        assert forall|k: Seq<char>| #[trigger]
            group_keys(a).contains(k) implies group_keys(b).insert(kk).contains(k) by {
            let i = choose|i: int|
                0 <= i < a.len() && (#[trigger] a[i]).key.len() > 0 && a[i].key.last() == k;
            if i < j {
                assert(b[i].key.len() > 0 && b[i].key.last() == k);
            }
        }
        assert forall|k: Seq<char>| #[trigger]
            group_keys(b).insert(kk).contains(k) implies group_keys(a).contains(k) by {
            if k == kk {
                assert(a[j].key.len() > 0 && a[j].key.last() == k);
            } else {
                let i = choose|i: int|
                    0 <= i < b.len() && (#[trigger] b[i]).key.len() > 0 && b[i].key.last() == k;
                assert(a[i].key.len() > 0 && a[i].key.last() == k);
            }
        }
        assert(group_keys(a) =~= group_keys(b).insert(kk));
    }
}

/// What the built tree satisfies, stated recursively: the node carries its
/// label, ancestor labels and section number; its body is the heading
/// followed by the unkeyed extracts in arrival order; its children are
/// exactly the groups of the keyed extracts, sorted strictly by label, each
/// numbered `section + [position]` with positions counted from 1 in sorted
/// order, and each recursively built from its group with the grouping
/// segment consumed.
pub open spec fn chapter_matches(
    c: Chapter,
    es: Seq<ExtractV>,
    name: Seq<char>,
    parent: Seq<Seq<char>>,
    section: Seq<u32>,
) -> bool
    decreases c,
{
    &&& c.name@ == name
    &&& c.parent_names.deep_view() == parent
    &&& c.number matches Some(num) && num@ == section
    &&& c.content@ == body_text(es, heading_of(parent, name))
    &&& forall|j: int| 0 <= j < c.sub_items@.len() ==> (#[trigger] c.sub_items@[j]) is Chapter
    &&& forall|j: int|
        0 <= j < c.sub_items@.len() - 1 ==> lex_lt(
            (#[trigger] c.sub_items@[j])->Chapter_0.name@,
            c.sub_items@[j + 1]->Chapter_0.name@,
        )
    &&& forall|j: int|
        0 <= j < c.sub_items@.len() ==> group_keys(es).contains(
            (#[trigger] c.sub_items@[j])->Chapter_0.name@,
        )
    &&& forall|k: Seq<char>|
        #[trigger] group_keys(es).contains(k) ==> exists|j: int|
            0 <= j < c.sub_items@.len() && (#[trigger] c.sub_items@[j])->Chapter_0.name@ == k
    &&& forall|j: int|
        0 <= j < c.sub_items@.len() ==> chapter_matches(
            (#[trigger] c.sub_items@[j])->Chapter_0,
            group_of(es, c.sub_items@[j]->Chapter_0.name@),
            c.sub_items@[j]->Chapter_0.name@,
            parent.push(name),
            section.push((j + 1) as u32),
        )
}

/// A key absent from the grouping keys has an empty group.
pub proof fn lemma_group_absent(es: Seq<ExtractV>, k: Seq<char>)
    requires
        !group_keys(es).contains(k),
    ensures
        group_of(es, k) == Seq::<ExtractV>::empty(),
    decreases es.len(),
{
    if es.len() > 0 {
        let b = es.drop_last();
        assert(forall|i: int| 0 <= i < b.len() ==> b[i] == es[i]);
        assert(!group_keys(b).contains(k)) by {
            if group_keys(b).contains(k) {
                let i = choose|i: int|
                    0 <= i < b.len() && (#[trigger] b[i]).key.len() > 0 && b[i].key.last() == k;
                assert(es[i].key.len() > 0 && es[i].key.last() == k);
            }
        }
        lemma_group_absent(b, k);
        if es.last().key.len() > 0 && es.last().key.last() == k {
            assert(es[es.len() - 1].key.len() > 0 && es[es.len() - 1].key.last() == k);
        }
    }
}

/// Copies a list of section-number components.
fn clone_u32s(v: &Vec<u32>) -> (r: Vec<u32>)
    ensures
        r@ == v@,
{
    let mut r: Vec<u32> = Vec::new();
    let mut m: usize = 0;
    while m < v.len()
        invariant
            m <= v@.len(),
            r@.len() == m,
            forall|k: int| 0 <= k < m ==> r@[k] == v@[k],
        decreases v@.len() - m,
    {
        r.push(v[m]);
        m = m + 1;
    }
    proof {
        assert(r@ =~= v@);
    }
    r
}

/// Builds the `"## "` heading line from a node's full label path.
fn join_heading(current: &Vec<String>) -> (r: String)
    ensures
        r@ == seq!['#', '#', ' '] + join_sep(current.deep_view()),
{
    let ghost cd = current.deep_view();
    let mut content = String::from_str("## ");
    proof {
        reveal_strlit("## ");
        assert(content@ =~= seq!['#', '#', ' '] + join_sep(cd.take(0)));
    }
    let mut t: usize = 0;
    while t < current.len()
        invariant
            t <= current@.len(),
            cd == current.deep_view(),
            cd.len() == current@.len(),
            content@ == seq!['#', '#', ' '] + join_sep(cd.take(t as int)),
        decreases current@.len() - t,
    {
        if t > 0 {
            content.append(" / ");
        }
        content.append(current[t].as_str());
        proof {
            reveal_strlit(" / ");
            assert(" / "@ =~= seq![' ', '/', ' ']);
            assert(cd.take(t + 1).drop_last() =~= cd.take(t as int));
            assert(cd.take(t + 1).last() == cd[t as int]);
            assert(current@[t as int]@ == cd[t as int]);
            if t == 0 {
                assert(join_sep(cd.take(1)) == cd[0]);
                assert(content@ =~= seq!['#', '#', ' '] + join_sep(cd.take(1)));
            } else {
                assert(join_sep(cd.take(t + 1)) == join_sep(cd.take(t as int)) + seq![
                    ' ',
                    '/',
                    ' ',
                ] + cd[t as int]);
                assert(content@ =~= seq!['#', '#', ' '] + join_sep(cd.take(t + 1)));
            }
        }
        t = t + 1;
    }
    proof {
        assert(cd.take(cd.len() as int) =~= cd);
    }
    content
}

/// One partition of the keyed extracts: the shared innermost segment and
/// the group's extracts with that segment consumed.
struct Extracts {
    name: String,
    list: Vec<Extract>,
}

/// Builds one node of the aggregate tree from `extracts`: unkeyed extracts
/// are appended to the node's body in arrival order; keyed extracts are
/// grouped by their innermost segment, and each group becomes a child
/// chapter, children in strictly ascending label order, numbered from 1.
pub fn generate_chapter(
    extracts: Vec<Extract>,
    name: String,
    parent: Vec<String>,
    section: Vec<u32>,
) -> (c: Chapter)
    requires
        extracts@.len() <= u32::MAX,
    ensures
        chapter_matches(c, extracts.deep_view(), name@, parent.deep_view(), section@),
    decreases max_key_len(extracts.deep_view()),
{
    let ghost es = extracts.deep_view();
    let ghost pv = parent.deep_view();
    let n = extracts.len();

    let mut current = clone_strings(&parent);
    current.push(name.clone());
    proof {
        assert(current.deep_view() =~= pv.push(name@));
    }
    let ghost hd = heading_of(pv, name@);
    let mut content = join_heading(&current);
    proof {
        assert(es.take(0) =~= Seq::<ExtractV>::empty());
        assert(content@ == body_text(es.take(0), hd));
    }

    let mut groups: Vec<Extracts> = Vec::new();
    let mut j: usize = 0;
    while j < n
        invariant
            j <= n,
            n == extracts@.len(),
            es == extracts.deep_view(),
            es.len() == n,
            content@ == body_text(es.take(j as int), hd),
            groups@.len() <= j,
            forall|m1: int, m2: int|
                0 <= m1 < m2 < groups@.len() ==> lex_lt(
                    (#[trigger] groups@[m1]).name@,
                    (#[trigger] groups@[m2]).name@,
                ),
            forall|m: int|
                0 <= m < groups@.len() ==> (#[trigger] groups@[m]).list.deep_view() == group_of(
                    es.take(j as int),
                    groups@[m].name@,
                ),
            forall|m: int| 0 <= m < groups@.len() ==> (#[trigger] groups@[m]).list@.len() > 0,
            forall|m: int|
                0 <= m < groups@.len() ==> group_keys(es.take(j as int)).contains(
                    (#[trigger] groups@[m]).name@,
                ),
            forall|k: Seq<char>|
                #[trigger] group_keys(es.take(j as int)).contains(k) ==> exists|m: int|
                    0 <= m < groups@.len() && (#[trigger] groups@[m]).name@ == k,
        decreases n - j,
    {
        proof {
            lemma_group_step(es, j as int);
        }
        let e = &extracts[j];
        if e.key.is_empty() {
            content.append("\n\n");
            content.append(e.val.as_str());
            proof {
                reveal_strlit("\n\n");
                assert("\n\n"@ =~= seq!['\n', '\n']);
                assert(es[j as int].key.len() == 0);
                assert(content@ =~= body_text(es.take(j + 1), hd));
            }
        } else {
            let mut newkey = clone_strings(&e.key);
            let ghost fullkey = es[j as int].key;
            // The key is non-empty here, so `pop` always yields its last segment.
            let kk = match newkey.pop() {
                Some(x) => x,
                None => String::new(),
            };
            let ghost kkv = fullkey.last();
            proof {
                assert(es[j as int].key.len() > 0);
                assert(kk@ == kkv);
                assert(newkey.deep_view() =~= fullkey.drop_last());
            }
            let local = Extract { key: newkey, val: e.val.clone() };
            proof {
                assert(local.deep_view().key =~= popped(es[j as int]).key);
                assert(local.deep_view() == popped(es[j as int]));
            }
            let ghost old_gl = groups@;
            let mut idx: usize = 0;
            let mut found = false;
            loop
                invariant_except_break
                    idx <= old_gl.len(),
                    groups@ == old_gl,
                    !found,
                    kk@ == kkv,
                    forall|m: int| 0 <= m < idx ==> lex_lt((#[trigger] old_gl[m]).name@, kkv),
                ensures
                    groups@ == old_gl,
                    idx <= old_gl.len(),
                    kk@ == kkv,
                    forall|m: int| 0 <= m < idx ==> lex_lt((#[trigger] old_gl[m]).name@, kkv),
                    found ==> idx < old_gl.len() && old_gl[idx as int].name@ == kkv,
                    !found && idx < old_gl.len() ==> lex_lt(kkv, old_gl[idx as int].name@),
                decreases old_gl.len() - idx,
            {
                if idx >= groups.len() {
                    break;
                }
                if crate::text::str_eq(groups[idx].name.as_str(), kk.as_str()) {
                    found = true;
                    break;
                }
                if crate::text::str_lt(kk.as_str(), groups[idx].name.as_str()) {
                    break;
                }
                proof {
                    crate::text::lemma_lex_total(old_gl[idx as int].name@, kkv);
                }
                idx = idx + 1;
            }
            if found {
                let mut g = groups.remove(idx);
                let ghost gv = g.list.deep_view();
                g.list.push(local);
                proof {
                    assert(g.list.deep_view() =~= gv.push(popped(es[j as int])));
                }
                groups.insert(idx, g);
                proof {
                    assert(forall|m: int|
                        0 <= m < groups@.len() && m != idx ==> groups@[m] == old_gl[m]);
                    assert(groups@[idx as int].name@ == kkv);
                    assert(groups@[idx as int].list.deep_view() == group_of(es.take(j + 1), kkv));
                    assert forall|m: int|
                        0 <= m < groups@.len() && m != idx implies (#[trigger] groups@[m]).name@
                        != kkv by {
                        crate::text::lemma_lex_irrefl(kkv);
                        if m < idx {
                            assert(lex_lt(groups@[m].name@, kkv));
                        } else {
                            assert(lex_lt(old_gl[idx as int].name@, old_gl[m].name@));
                        }
                    }
                    assert forall|k: Seq<char>| #[trigger]
                        group_keys(es.take(j + 1)).contains(k) implies exists|m: int|
                        0 <= m < groups@.len() && (#[trigger] groups@[m]).name@ == k by {
                        if k == kkv {
                            assert(groups@[idx as int].name@ == k);
                        } else {
                            assert(group_keys(es.take(j as int)).contains(k));
                            let m = choose|m: int|
                                0 <= m < old_gl.len() && (#[trigger] old_gl[m]).name@ == k;
                            assert(groups@[m].name@ == k);
                        }
                    }
                }
            } else {
                proof {
                    crate::text::lemma_lex_irrefl(kkv);
                    assert forall|m: int|
                        0 <= m < old_gl.len() implies (#[trigger] old_gl[m]).name@ != kkv by {
                        if m < idx {
                            assert(lex_lt(old_gl[m].name@, kkv));
                        } else if m == idx {
                            assert(lex_lt(kkv, old_gl[m].name@));
                        } else {
                            assert(lex_lt(kkv, old_gl[idx as int].name@));
                            assert(lex_lt(old_gl[idx as int].name@, old_gl[m].name@));
                            crate::text::lemma_lex_trans(
                                kkv,
                                old_gl[idx as int].name@,
                                old_gl[m].name@,
                            );
                        }
                    }
                    assert(!group_keys(es.take(j as int)).contains(kkv)) by {
                        if group_keys(es.take(j as int)).contains(kkv) {
                            let m = choose|m: int|
                                0 <= m < old_gl.len() && (#[trigger] old_gl[m]).name@ == kkv;
                        }
                    }
                    lemma_group_absent(es.take(j as int), kkv);
                }
                let mut l: Vec<Extract> = Vec::new();
                l.push(local);
                proof {
                    assert(l.deep_view() =~= Seq::<ExtractV>::empty().push(popped(es[j as int])));
                }
                groups.insert(idx, Extracts { name: kk, list: l });
                proof {
                    assert(groups@.len() == old_gl.len() + 1);
                    assert(forall|m: int| 0 <= m < idx ==> groups@[m] == old_gl[m]);
                    assert(forall|m: int|
                        idx < m < groups@.len() ==> groups@[m] == old_gl[m - 1]);
                    assert(groups@[idx as int].name@ == kkv);
                    assert(groups@[idx as int].list.deep_view() == group_of(es.take(j + 1), kkv));
                    assert forall|m1: int, m2: int|
                        0 <= m1 < m2 < groups@.len() implies lex_lt(
                        (#[trigger] groups@[m1]).name@,
                        (#[trigger] groups@[m2]).name@,
                    ) by {
                        if m1 == idx {
                            assert(lex_lt(kkv, old_gl[idx as int].name@));
                            if m2 > idx + 1 {
                                crate::text::lemma_lex_trans(
                                    kkv,
                                    old_gl[idx as int].name@,
                                    old_gl[m2 - 1].name@,
                                );
                            }
                        } else if m2 == idx {
                            assert(lex_lt(old_gl[m1].name@, kkv));
                        } else if m1 < idx && m2 > idx {
                            assert(lex_lt(old_gl[m1].name@, old_gl[m2 - 1].name@));
                        }
                    }
                    assert forall|k: Seq<char>| #[trigger]
                        group_keys(es.take(j + 1)).contains(k) implies exists|m: int|
                        0 <= m < groups@.len() && (#[trigger] groups@[m]).name@ == k by {
                        if k == kkv {
                            assert(groups@[idx as int].name@ == k);
                        } else {
                            assert(group_keys(es.take(j as int)).contains(k));
                            let m = choose|m: int|
                                0 <= m < old_gl.len() && (#[trigger] old_gl[m]).name@ == k;
                            if m < idx {
                                assert(groups@[m].name@ == k);
                            } else {
                                assert(groups@[m + 1].name@ == k);
                            }
                        }
                    }
                }
            }
        }
        j = j + 1;
    }
    proof {
        assert(es.take(n as int) =~= es);
    }

    let ghost gseq = groups@;
    let mut subs: Vec<BookItem> = Vec::new();
    let mut t: usize = 0;
    while groups.len() > 0
        invariant
            t + groups@.len() == gseq.len(),
            groups@ == gseq.skip(t as int),
            gseq.len() <= n,
            n == extracts@.len(),
            n <= u32::MAX,
            es == extracts.deep_view(),
            current.deep_view() == pv.push(name@),
            forall|m1: int, m2: int|
                0 <= m1 < m2 < gseq.len() ==> lex_lt(
                    (#[trigger] gseq[m1]).name@,
                    (#[trigger] gseq[m2]).name@,
                ),
            forall|m: int|
                0 <= m < gseq.len() ==> (#[trigger] gseq[m]).list.deep_view() == group_of(
                    es,
                    gseq[m].name@,
                ),
            forall|m: int| 0 <= m < gseq.len() ==> (#[trigger] gseq[m]).list@.len() > 0,
            forall|m: int|
                0 <= m < gseq.len() ==> group_keys(es).contains((#[trigger] gseq[m]).name@),
            forall|k: Seq<char>|
                #[trigger] group_keys(es).contains(k) ==> exists|m: int|
                    0 <= m < gseq.len() && (#[trigger] gseq[m]).name@ == k,
            subs@.len() == t,
            forall|m: int| 0 <= m < t ==> (#[trigger] subs@[m]) is Chapter,
            forall|m: int|
                0 <= m < t ==> (#[trigger] subs@[m])->Chapter_0.name@ == gseq[m].name@,
            forall|m: int|
                0 <= m < t ==> chapter_matches(
                    (#[trigger] subs@[m])->Chapter_0,
                    group_of(es, gseq[m].name@),
                    gseq[m].name@,
                    pv.push(name@),
                    section@.push((m + 1) as u32),
                ),
        decreases groups@.len(),
    {
        let g = groups.remove(0);
        proof {
            assert(g == gseq[t as int]);
            assert(groups@ =~= gseq.skip(t + 1));
        }
        let ghost gname = gseq[t as int].name@;
        let mut sec2 = clone_u32s(&section);
        sec2.push((t as u32) + 1);
        proof {
            assert(t < gseq.len());
            assert(sec2@ =~= section@.push((t + 1) as u32));
        }
        let par2 = clone_strings(&current);
        proof {
            assert(g.list.deep_view() == group_of(es, gname));
            lemma_group_len(es, gname);
            lemma_group_max(es, gname);
            assert(max_key_len(g.list.deep_view()) < max_key_len(es));
        }
        let child = generate_chapter(g.list, g.name, par2, sec2);
        subs.push(BookItem::Chapter(child));
        t = t + 1;
    }
    proof {
        assert(gseq.skip(gseq.len() as int) =~= Seq::<Extracts>::empty());
        assert(t == gseq.len());
    }

    let c = Chapter {
        name,
        content,
        number: Some(section),
        sub_items: subs,
        parent_names: parent,
    };
    proof {
        assert forall|k: Seq<char>| #[trigger] group_keys(es).contains(k) implies exists|m: int|
            0 <= m < c.sub_items@.len() && (#[trigger] c.sub_items@[m])->Chapter_0.name@
                == k by {
            let m = choose|m: int| 0 <= m < gseq.len() && (#[trigger] gseq[m]).name@ == k;
            assert(c.sub_items@[m]->Chapter_0.name@ == k);
        }
        assert(chapter_matches(c, es, name@, pv, section@));
    }
    c
}

} // verus!
