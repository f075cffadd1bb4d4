//! Checksums of package trees: the files of a tree are hashed in byte order of
//! their relative names, with `/` separators, so that a lockfile records the
//! same checksum on every host.
use vstd::prelude::*;

use vstd::seq_lib::group_to_multiset_ensures;

use crate::checksum::{checksum_bytes, checksum_text, fnv, initial_state, lemma_fnv_concat};
use crate::output::{lemma_ascii_bytes, push_hex, push_str};
use crate::package_map::{bytes_less, bytes_lt, lemma_lt_asymmetric, lemma_lt_total, lemma_lt_transitive};
use crate::text::{byte_len, bytes, first_index, lemma_first_index, split_once};

verus! {

/// A file of a tree: its relative name and its contents.
pub type FileView = (Seq<u8>, Seq<u8>);

/// The files as bytes.
pub open spec fn file_views(files: Seq<(String, Vec<u8>)>) -> Seq<FileView> {
    files.map_values(|f: (String, Vec<u8>)| (bytes(f.0@), f.1@))
}

/// `sorted` with `f` inserted after every file whose name does not order
/// after `f`'s: the step of a stable insertion sort by name.
pub open spec fn insert_by_name(sorted: Seq<FileView>, f: FileView) -> Seq<FileView>
    decreases sorted.len(),
{
    if sorted.len() == 0 {
        seq![f]
    } else if bytes_lt(f.0, sorted.last().0) {
        insert_by_name(sorted.drop_last(), f).push(sorted.last())
    } else {
        sorted.push(f)
    }
}

/// The files in byte order of their names; files of equal names keep their
/// order.
pub open spec fn sort_by_name(files: Seq<FileView>) -> Seq<FileView>
    decreases files.len(),
{
    if files.len() == 0 {
        Seq::empty()
    } else {
        insert_by_name(sort_by_name(files.drop_last()), files.last())
    }
}

/// The bytes hashed for a sequence of files: each name, a zero byte, and the
/// contents.
pub open spec fn tree_stream(files: Seq<FileView>) -> Seq<u8>
    decreases files.len(),
{
    if files.len() == 0 {
        Seq::empty()
    } else {
        tree_stream(files.drop_last()) + files.last().0 + seq![0u8] + files.last().1
    }
}

/// The checksum text of a tree with these files, listed in any order.
pub open spec fn tree_text(files: Seq<FileView>) -> Seq<u8> {
    checksum_text(tree_stream(sort_by_name(files)))
}

/// The hash of a tree's stream is a fold over its files: each step hashes the
/// name, a zero byte, then the contents, from the state the earlier files
/// left.
pub proof fn lemma_tree_fold(h: u32, files: Seq<FileView>, f: FileView)
    ensures
        fnv(h, tree_stream(files.push(f))) == fnv(
            fnv(fnv(fnv(h, tree_stream(files)), f.0), seq![0u8]),
            f.1,
        ),
{
    let before = tree_stream(files);
    assert(files.push(f).drop_last() =~= files);
    lemma_fnv_concat(h, before, f.0);
    lemma_fnv_concat(h, before + f.0, seq![0u8]);
    lemma_fnv_concat(h, before + f.0 + seq![0u8], f.1);
}

/// Inserting at the position after every name that does not order after the
/// new one is `insert_by_name`.
proof fn lemma_insert_at(s: Seq<FileView>, f: FileView, k: int)
    requires
        0 <= k <= s.len(),
        forall|j: int| k <= j < s.len() ==> bytes_lt(f.0, #[trigger] s[j].0),
        k == 0 || !bytes_lt(f.0, s[k - 1].0),
    ensures
        insert_by_name(s, f) == s.insert(k, f),
    decreases s.len(),
{
    if s.len() == 0 {
        assert(s.insert(k, f) =~= seq![f]);
    } else if k == s.len() {
        assert(s.insert(k, f) =~= s.push(f));
    } else {
        assert(bytes_lt(f.0, s[s.len() - 1].0));
        lemma_insert_at(s.drop_last(), f, k);
        assert(s.drop_last().insert(k, f).push(s.last()) =~= s.insert(k, f));
    }
}

/// Inserts `f` into the name-sorted `out` as the stable insertion sort does.
fn insert_sorted(out: &mut Vec<(String, Vec<u8>)>, f: (String, Vec<u8>))
    ensures
        file_views(final(out)@) == insert_by_name(file_views(old(out)@), (bytes(f.0@), f.1@)),
{
    let ghost s = file_views(out@);
    let ghost fv = (bytes(f.0@), f.1@);
    let mut k = out.len();
    while k > 0 && bytes_less(f.0.as_str().as_bytes(), out[k - 1].0.as_str().as_bytes())
        invariant
            k <= out@.len(),
            s == file_views(out@),
            fv == (bytes(f.0@), f.1@),
            forall|j: int| k <= j < s.len() ==> bytes_lt(fv.0, #[trigger] s[j].0),
        decreases k,
    {
        k = k - 1;
    }
    proof {
        lemma_insert_at(s, fv, k as int);
    }
    out.insert(k, f);
    assert(file_views(out@) =~= s.insert(k as int, fv));
}

/// Sorts files by name, stably.
fn sort_files(files: Vec<(String, Vec<u8>)>) -> (res: Vec<(String, Vec<u8>)>)
    ensures
        file_views(res@) == sort_by_name(file_views(files@)),
{
    let ghost all = file_views(files@);
    let mut rest = files;
    let mut out: Vec<(String, Vec<u8>)> = Vec::new();
    let ghost mut done: int = 0;
    assert(all.take(0) =~= Seq::<FileView>::empty());
    while rest.len() > 0
        invariant
            0 <= done <= all.len(),
            file_views(rest@) == all.skip(done),
            file_views(out@) == sort_by_name(all.take(done)),
        decreases rest@.len(),
    {
        assert(file_views(rest@).len() == rest@.len());
        assert(done < all.len());
        let ghost old_rest = rest@;
        assert(file_views(old_rest) == all.skip(done));
        let f = rest.remove(0);
        proof {
            assert(old_rest[0] == f);
            assert(file_views(old_rest)[0] == all.skip(done)[0]);
            assert(all.skip(done)[0] == (bytes(f.0@), f.1@));
            assert(all.take(done + 1).drop_last() =~= all.take(done));
            assert(all.take(done + 1).last() == all[done]);
        }
        insert_sorted(&mut out, f);
        proof {
            assert(rest@ =~= old_rest.skip(1));
            assert forall|j: int| 0 <= j < rest@.len() implies #[trigger] file_views(rest@)[j]
                == all.skip(done + 1)[j] by {
                assert(rest@[j] == old_rest[j + 1]);
                assert(file_views(old_rest)[j + 1] == all.skip(done)[j + 1]);
            }
            assert(file_views(rest@) =~= all.skip(done + 1));
            done = done + 1;
        }
    }
    assert(all.take(done) =~= all);
    out
}

/// The checksum of a tree from its files, in any order: the files are hashed
/// in byte order of their names, each as its name, a zero byte and its
/// contents.
pub fn tree_checksum(files: Vec<(String, Vec<u8>)>) -> (res: String)
    ensures
        bytes(res@) == tree_text(file_views(files@)),
{
    broadcast use vstd::array::group_array_axioms;
    let sorted = sort_files(files);
    let ghost sv = file_views(sorted@);
    let mut state: [u32; 2] = [1u32, 0x1234_5678u32];
    let zero: [u8; 1] = [0u8];
    let mut i: usize = 0;
    assert(sv.take(0) =~= Seq::<FileView>::empty());
    while i < sorted.len()
        invariant
            i <= sorted@.len(),
            sv == file_views(sorted@),
            state@.len() == 2,
            state@[0] == fnv(initial_state().0, tree_stream(sv.take(i as int))),
            state@[1] == fnv(initial_state().1, tree_stream(sv.take(i as int))),
            zero@ == seq![0u8],
        decreases sorted@.len() - i,
    {
        let ghost before = tree_stream(sv.take(i as int));
        let name = sorted[i].0.as_str().as_bytes();
        let contents = sorted[i].1.as_slice();
        state = checksum_bytes(state, name);
        state = checksum_bytes(state, zero.as_slice());
        state = checksum_bytes(state, contents);
        proof {
            assert(sv.take(i + 1).drop_last() =~= sv.take(i as int));
            assert(sv.take(i + 1).last() == sv[i as int]);
            let after = tree_stream(sv.take(i + 1));
            assert(after == before + name@ + seq![0u8] + contents@);
            lemma_fnv_concat(initial_state().0, before, name@);
            lemma_fnv_concat(initial_state().0, before + name@, seq![0u8]);
            lemma_fnv_concat(initial_state().0, before + name@ + seq![0u8], contents@);
            lemma_fnv_concat(initial_state().1, before, name@);
            lemma_fnv_concat(initial_state().1, before + name@, seq![0u8]);
            lemma_fnv_concat(initial_state().1, before + name@ + seq![0u8], contents@);
        }
        i = i + 1;
    }
    assert(sv.take(i as int) =~= sv);
    let mut out = String::new();
    push_hex(&mut out, state[0], 8);
    push_hex(&mut out, state[1], 8);
    out
}

/// A backslash (byte 92) becomes `/`; other bytes stay.
pub open spec fn slash(c: u8) -> u8 {
    if c == 92u8 {
        47u8
    } else {
        c
    }
}

/// A path relative to a tree's root as it is hashed: with `/` separators, and
/// `.` for the root itself.
pub open spec fn spec_relative_name(path: Seq<u8>) -> Seq<u8> {
    if path.len() == 0 {
        seq![46u8]
    } else {
        path.map_values(|c: u8| slash(c))
    }
}

/// The name under which a file is hashed, from its path relative to the
/// tree's root.
pub fn relative_name(path: &str) -> (res: String)
    ensures
        bytes(res@) == spec_relative_name(bytes(path@)),
{
    let ghost whole = bytes(path@).map_values(|c: u8| slash(c));
    let separator = "/";
    proof {
        reveal_strlit("/");
        lemma_ascii_bytes(separator@);
    }
    let mut out = String::new();
    let mut rest = path;
    let mut done = false;
    while !done
        invariant
            whole == bytes(path@).map_values(|c: u8| slash(c)),
            bytes(separator@) == seq![47u8],
            done ==> bytes(out@) == whole,
            !done ==> bytes(out@) + bytes(rest@).map_values(|c: u8| slash(c)) == whole,
        decreases (if done { 0 } else { bytes(rest@).len() + 1 }),
    {
        let (piece, after, found) = split_once(rest, 92);
        let ghost r = bytes(rest@);
        let ghost k = first_index(r, 92u8);
        proof {
            lemma_first_index(r, 92u8);
            assert(bytes(piece@).map_values(|c: u8| slash(c)) =~= bytes(piece@));
        }
        let ghost before = bytes(out@);
        push_str(&mut out, piece);
        if found {
            push_str(&mut out, separator);
            proof {
                assert(r =~= r.take(k) + seq![92u8] + r.skip(k + 1));
                assert(r.map_values(|c: u8| slash(c)) =~= r.take(k) + seq![47u8] + r.skip(k + 1).map_values(
                    |c: u8| slash(c),
                ));
                assert(bytes(out@) + bytes(after@).map_values(|c: u8| slash(c)) =~= before
                    + r.map_values(|c: u8| slash(c)));
            }
            rest = after;
        } else {
            proof {
                assert(r.take(k) =~= r);
            }
            done = true;
        }
    }
    if byte_len(out.as_str()) == 0 {
        proof {
            assert(bytes(path@).len() == 0);
        }
        let dot = ".".to_owned();
        proof {
            reveal_strlit(".");
            lemma_ascii_bytes(dot@);
            assert(bytes(dot@) =~= seq![46u8]);
        }
        return dot;
    }
    out
}

/// Whether no name orders before an earlier one.
pub open spec fn sorted_names(s: Seq<FileView>) -> bool {
    forall|i: int, j: int| 0 <= i < j < s.len() ==> !bytes_lt(#[trigger] s[j].0, #[trigger] s[i].0)
}

/// Whether no two files share a name.
pub open spec fn distinct_names(s: Seq<FileView>) -> bool {
    forall|i: int, j: int|
        0 <= i < s.len() && 0 <= j < s.len() && i != j ==> #[trigger] s[i].0 != #[trigger] s[j].0
}

proof fn lemma_insert_multiset(s: Seq<FileView>, f: FileView)
    ensures
        insert_by_name(s, f).to_multiset() == s.to_multiset().insert(f),
    decreases s.len(),
{
    broadcast use group_to_multiset_ensures;
    broadcast use vstd::multiset::group_multiset_axioms;

    if s.len() == 0 {
        assert(seq![f] =~= Seq::<FileView>::empty().push(f));
        assert(s =~= Seq::<FileView>::empty());
    } else if bytes_lt(f.0, s.last().0) {
        lemma_insert_multiset(s.drop_last(), f);
        assert(s =~= s.drop_last().push(s.last()));
        assert(insert_by_name(s, f).to_multiset() =~= s.to_multiset().insert(f));
    }
}

proof fn lemma_sort_multiset(files: Seq<FileView>)
    ensures
        sort_by_name(files).to_multiset() == files.to_multiset(),
    decreases files.len(),
{
    broadcast use group_to_multiset_ensures;

    if files.len() == 0 {
        assert(files =~= Seq::<FileView>::empty());
    } else {
        lemma_sort_multiset(files.drop_last());
        lemma_insert_multiset(sort_by_name(files.drop_last()), files.last());
        assert(files =~= files.drop_last().push(files.last()));
    }
}

/// Whether `x` occurs in `s`, through the multiset of `s`.
proof fn lemma_contains_multiset(s: Seq<FileView>, x: FileView)
    ensures
        s.contains(x) <==> s.to_multiset().count(x) > 0,
{
    broadcast use group_to_multiset_ensures;

}

proof fn lemma_insert_sorted(s: Seq<FileView>, f: FileView)
    requires
        sorted_names(s),
    ensures
        sorted_names(insert_by_name(s, f)),
    decreases s.len(),
{
    broadcast use vstd::multiset::group_multiset_axioms;

    if s.len() == 0 {
    } else if bytes_lt(f.0, s.last().0) {
        let d = s.drop_last();
        let last = s.last();
        assert(sorted_names(d)) by {
            assert forall|i: int, j: int| 0 <= i < j < d.len() implies !bytes_lt(
                #[trigger] d[j].0,
                #[trigger] d[i].0,
            ) by {
                assert(d[i] == s[i] && d[j] == s[j]);
            }
        }
        lemma_insert_sorted(d, f);
        let r = insert_by_name(d, f);
        lemma_insert_multiset(d, f);
        assert forall|i: int| 0 <= i < r.len() implies !bytes_lt(last.0, #[trigger] r[i].0) by {
            lemma_contains_multiset(r, r[i]);
            assert(r.contains(r[i]));
            if r[i] == f {
                lemma_lt_asymmetric(f.0, last.0);
            } else {
                lemma_contains_multiset(d, r[i]);
                let k = choose|k: int| 0 <= k < d.len() && d[k] == r[i];
                assert(s[k] == d[k]);
                assert(!bytes_lt(s[s.len() - 1].0, s[k].0));
            }
        }
        let t = r.push(last);
        assert forall|i: int, j: int| 0 <= i < j < t.len() implies !bytes_lt(
            #[trigger] t[j].0,
            #[trigger] t[i].0,
        ) by {
            if j < r.len() {
                assert(t[i] == r[i] && t[j] == r[j]);
            } else {
                assert(t[i] == r[i]);
            }
        }
    } else {
        let t = s.push(f);
        let last = s.last();
        assert forall|i: int, j: int| 0 <= i < j < t.len() implies !bytes_lt(
            #[trigger] t[j].0,
            #[trigger] t[i].0,
        ) by {
            if j < s.len() {
                assert(t[i] == s[i] && t[j] == s[j]);
            } else {
                assert(t[i] == s[i]);
                if i < s.len() - 1 {
                    assert(!bytes_lt(s[s.len() - 1].0, s[i].0));
                }
                lemma_lt_total(s[i].0, last.0);
                if bytes_lt(f.0, s[i].0) {
                    if bytes_lt(s[i].0, last.0) {
                        lemma_lt_transitive(f.0, s[i].0, last.0);
                    }
                }
            }
        }
    }
}

proof fn lemma_sort_sorted(files: Seq<FileView>)
    ensures
        sorted_names(sort_by_name(files)),
    decreases files.len(),
{
    if files.len() > 0 {
        lemma_sort_sorted(files.drop_last());
        lemma_insert_sorted(sort_by_name(files.drop_last()), files.last());
    }
}

/// A reordering of files with distinct names has distinct names.
proof fn lemma_distinct_moves(a: Seq<FileView>, b: Seq<FileView>)
    requires
        distinct_names(a),
        a.to_multiset() == b.to_multiset(),
    ensures
        distinct_names(b),
{
    broadcast use vstd::multiset::group_multiset_axioms;

    assert(a.no_duplicates()) by {
        assert forall|i: int, j: int| 0 <= i < a.len() && 0 <= j < a.len() && i != j implies a[i]
            != a[j] by {
            assert(a[i].0 != a[j].0);
        }
    }
    a.lemma_multiset_has_no_duplicates();
    b.lemma_multiset_has_no_duplicates_conv();
    assert forall|i: int, j: int| 0 <= i < b.len() && 0 <= j < b.len() && i != j implies #[trigger] b[i].0
        != #[trigger] b[j].0 by {
        assert(b[i] != b[j]);
        lemma_contains_multiset(b, b[i]);
        lemma_contains_multiset(b, b[j]);
        lemma_contains_multiset(a, b[i]);
        lemma_contains_multiset(a, b[j]);
        assert(b.contains(b[i]));
        assert(b.contains(b[j]));
        let x = choose|x: int| 0 <= x < a.len() && a[x] == b[i];
        let y = choose|y: int| 0 <= y < a.len() && a[y] == b[j];
        assert(x != y);
        assert(a[x].0 != a[y].0);
    }
}

/// Two name-sorted sequences of the same files with distinct names are equal.
proof fn lemma_sorted_same(x: Seq<FileView>, y: Seq<FileView>)
    requires
        sorted_names(x),
        sorted_names(y),
        distinct_names(x),
        distinct_names(y),
        x.to_multiset() == y.to_multiset(),
    ensures
        x == y,
    decreases x.len(),
{
    broadcast use vstd::multiset::group_multiset_axioms;
    broadcast use group_to_multiset_ensures;

    x.to_multiset_ensures();
    y.to_multiset_ensures();
    if x.len() == 0 || y.len() == 0 {
        assert(x.len() == y.len());
        assert(x =~= y);
    } else {
        lemma_contains_multiset(x, y[0]);
        lemma_contains_multiset(y, x[0]);
        assert(x.contains(x[0]));
        assert(y.contains(y[0]));
        let i = choose|i: int| 0 <= i < x.len() && x[i] == y[0];
        let j = choose|j: int| 0 <= j < y.len() && y[j] == x[0];
        if i > 0 && j > 0 {
            assert(!bytes_lt(x[i].0, x[0].0));
            assert(!bytes_lt(y[j].0, y[0].0));
            assert(x[0].0 != x[i].0);
            lemma_lt_total(x[0].0, y[0].0);
            lemma_lt_asymmetric(x[0].0, y[0].0);
        }
        assert(x[0] == y[0]);
        assert(x.remove(0) =~= x.drop_first());
        assert(y.remove(0) =~= y.drop_first());
        assert(x.remove(0).to_multiset() == x.to_multiset().remove(x[0]));
        assert(y.remove(0).to_multiset() == y.to_multiset().remove(y[0]));
        let dx = x.drop_first();
        let dy = y.drop_first();
        assert forall|a: int, b: int| 0 <= a < b < dx.len() implies !bytes_lt(
            #[trigger] dx[b].0,
            #[trigger] dx[a].0,
        ) by {
            assert(dx[a] == x[a + 1] && dx[b] == x[b + 1]);
        }
        assert forall|a: int, b: int| 0 <= a < b < dy.len() implies !bytes_lt(
            #[trigger] dy[b].0,
            #[trigger] dy[a].0,
        ) by {
            assert(dy[a] == y[a + 1] && dy[b] == y[b + 1]);
        }
        assert forall|a: int, b: int| 0 <= a < dx.len() && 0 <= b < dx.len() && a != b implies #[trigger] dx[a].0
            != #[trigger] dx[b].0 by {
            assert(dx[a] == x[a + 1] && dx[b] == x[b + 1]);
        }
        assert forall|a: int, b: int| 0 <= a < dy.len() && 0 <= b < dy.len() && a != b implies #[trigger] dy[a].0
            != #[trigger] dy[b].0 by {
            assert(dy[a] == y[a + 1] && dy[b] == y[b + 1]);
        }
        lemma_sorted_same(dx, dy);
        assert forall|k: int| 0 <= k < x.len() implies x[k] == y[k] by {
            if k > 0 {
                assert(x[k] == dx[k - 1] && y[k] == dy[k - 1]);
            }
        }
        assert(x =~= y);
    }
}

/// The checksum of a tree does not depend on the order in which its files are
/// listed: any two listings of the same files, with distinct names, give the
/// same checksum.
pub proof fn lemma_tree_text_order_independent(a: Seq<FileView>, b: Seq<FileView>)
    requires
        distinct_names(a),
        a.to_multiset() == b.to_multiset(),
    ensures
        tree_text(a) == tree_text(b),
{
    lemma_distinct_moves(a, b);
    lemma_sort_multiset(a);
    lemma_sort_multiset(b);
    lemma_sort_sorted(a);
    lemma_sort_sorted(b);
    lemma_distinct_moves(a, sort_by_name(a));
    lemma_distinct_moves(b, sort_by_name(b));
    lemma_sorted_same(sort_by_name(a), sort_by_name(b));
}

} // verus!
