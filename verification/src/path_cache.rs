//! The cache of paths: an ordered mapping from the absolute path of a file
//! to its inode.

use crate::minixfs3::{Inode, InodeData};
use vstd::prelude::*;
use vstd::string::*;
use vstd::utf8::{encode_utf8, encode_utf8_decode_utf8};

verus! {

/// `a` comes before `b` in the order of the dictionary.
pub open spec fn bytes_before(a: Seq<u8>, b: Seq<u8>) -> bool
    decreases a.len(),
{
    if b.len() == 0 {
        false
    } else if a.len() == 0 {
        true
    } else if a[0] != b[0] {
        a[0] < b[0]
    } else {
        bytes_before(a.drop_first(), b.drop_first())
    }
}

/// The path `a` comes before the path `b`: the bytes of its UTF-8 encoding
/// come first.
pub open spec fn path_before(a: Seq<char>, b: Seq<char>) -> bool {
    bytes_before(encode_utf8(a), encode_utf8(b))
}

pub proof fn lemma_before_is_strict(a: Seq<u8>)
    ensures
        !bytes_before(a, a),
    decreases a.len(),
{
    if a.len() > 0 {
        lemma_before_is_strict(a.drop_first());
    }
}

pub proof fn lemma_before_is_transitive(a: Seq<u8>, b: Seq<u8>, c: Seq<u8>)
    requires
        bytes_before(a, b),
        bytes_before(b, c),
    ensures
        bytes_before(a, c),
    decreases a.len(),
{
    if a.len() > 0 && a[0] == b[0] && b[0] == c[0] {
        lemma_before_is_transitive(a.drop_first(), b.drop_first(), c.drop_first());
    }
}

pub proof fn lemma_before_is_total(a: Seq<u8>, b: Seq<u8>)
    requires
        a != b,
    ensures
        bytes_before(a, b) || bytes_before(b, a),
    decreases a.len(),
{
    if a.len() > 0 && b.len() > 0 && a[0] == b[0] {
        if a.drop_first() == b.drop_first() {
            assert(a =~= seq![a[0]] + a.drop_first());
            assert(b =~= seq![b[0]] + b.drop_first());
        }
        lemma_before_is_total(a.drop_first(), b.drop_first());
    } else if a.len() == 0 && b.len() == 0 {
        assert(a =~= b);
    }
}

/// Two different paths are ordered one way or the other.
pub proof fn lemma_paths_are_ordered(a: Seq<char>, b: Seq<char>)
    requires
        a != b,
    ensures
        path_before(a, b) || path_before(b, a),
{
    encode_utf8_decode_utf8(a);
    encode_utf8_decode_utf8(b);
    lemma_before_is_total(encode_utf8(a), encode_utf8(b));
}

/// Whether the path `a` comes before the path `b`.
pub fn str_before(a: &str, b: &str) -> (r: bool)
    ensures
        r == path_before(a@, b@),
{
    let x = a.as_bytes();
    let y = b.as_bytes();
    let n: usize = x.len();
    let m: usize = y.len();
    let mut i: usize = 0;
    assert(x@.subrange(0, n as int) =~= x@);
    assert(y@.subrange(0, m as int) =~= y@);
    while i < n && i < m && x[i] == y[i]
        invariant
            i <= n,
            i <= m,
            n == x@.len(),
            m == y@.len(),
            bytes_before(x@, y@) == bytes_before(
                x@.subrange(i as int, n as int),
                y@.subrange(i as int, m as int),
            ),
        decreases n - i,
    {
        assert(x@.subrange(i as int, n as int).drop_first() =~= x@.subrange(i + 1, n as int));
        assert(y@.subrange(i as int, m as int).drop_first() =~= y@.subrange(i + 1, m as int));
        i = i + 1;
    }
    if i == m {
        false
    } else if i == n {
        true
    } else {
        x[i] < y[i]
    }
}

/// A path and the inode that it names.
pub struct CacheEntry {
    path: String,
    inode: Inode,
}

/// The mapping, kept as the list of its paths in ascending order.
pub struct PathCache {
    entries: Vec<CacheEntry>,
}

/// The mapping that the insertions `list` build on top of `m`.
pub open spec fn insert_all(
    m: Map<Seq<char>, InodeData>,
    list: Seq<(Seq<char>, InodeData)>,
) -> Map<Seq<char>, InodeData>
    decreases list.len(),
{
    if list.len() == 0 {
        m
    } else {
        insert_all(m, list.drop_last()).insert(list.last().0, list.last().1)
    }
}

/// The paths of the list ascend, so that no path occurs twice.
pub open spec fn ascending(list: Seq<(Seq<char>, InodeData)>) -> bool {
    forall|i: int, j: int|
        0 <= i < j < list.len() ==> path_before((#[trigger] list[i]).0, (#[trigger] list[j]).0)
}

/// Inserting two lists one after the other is inserting their concatenation.
pub proof fn lemma_insert_all_concat(
    m: Map<Seq<char>, InodeData>,
    a: Seq<(Seq<char>, InodeData)>,
    b: Seq<(Seq<char>, InodeData)>,
)
    ensures
        insert_all(m, a + b) == insert_all(insert_all(m, a), b),
    decreases b.len(),
{
    if b.len() == 0 {
        assert(a + b =~= a);
    } else {
        lemma_insert_all_concat(m, a, b.drop_last());
        assert((a + b).drop_last() =~= a + b.drop_last());
        assert((a + b).last() == b.last());
    }
}

/// Every path of the list is a key of the mapping that the list builds.
pub proof fn lemma_inserted_is_key(
    m: Map<Seq<char>, InodeData>,
    list: Seq<(Seq<char>, InodeData)>,
    k: int,
)
    requires
        0 <= k < list.len(),
    ensures
        insert_all(m, list).contains_key(list[k].0),
    decreases list.len(),
{
    if k < list.len() - 1 {
        lemma_inserted_is_key(m, list.drop_last(), k);
    }
}

/// Every value of the mapping that the list builds on the empty mapping is a
/// value of the list.
pub proof fn lemma_value_is_inserted(list: Seq<(Seq<char>, InodeData)>, path: Seq<char>)
    requires
        insert_all(Map::empty(), list).contains_key(path),
    ensures
        exists|k: int|
            0 <= k < list.len() && (#[trigger] list[k]).0 == path && list[k].1 == insert_all(
                Map::empty(),
                list,
            )[path],
    decreases list.len(),
{
    if list.len() > 0 {
        if list.last().0 == path {
            assert(list[list.len() - 1].0 == path);
        } else {
            lemma_value_is_inserted(list.drop_last(), path);
            let k = choose|k: int|
                0 <= k < list.drop_last().len() && (#[trigger] list.drop_last()[k]).0 == path
                    && list.drop_last()[k].1 == insert_all(Map::empty(), list.drop_last())[path];
            assert(list[k] == list.drop_last()[k]);
        }
    }
}

/// A path that the list does not hold may be put anywhere into it: the
/// mapping is the same as if it had been inserted last.
proof fn lemma_insert_anywhere(
    list: Seq<(Seq<char>, InodeData)>,
    at: int,
    path: Seq<char>,
    inode: InodeData,
)
    requires
        0 <= at <= list.len(),
        forall|j: int| 0 <= j < list.len() ==> (#[trigger] list[j]).0 != path,
    ensures
        insert_all(Map::empty(), list.insert(at, (path, inode))) == insert_all(
            Map::empty(),
            list,
        ).insert(path, inode),
    decreases list.len(),
{
    let more = list.insert(at, (path, inode));
    if at == list.len() {
        assert(more.drop_last() =~= list);
    } else {
        let front = list.drop_last();
        lemma_insert_anywhere(front, at, path, inode);
        assert(more.drop_last() =~= front.insert(at, (path, inode)));
        assert(more.last() == list.last());
        assert(list[list.len() - 1].0 != path);
        assert(insert_all(Map::empty(), front).insert(path, inode).insert(
            list.last().0,
            list.last().1,
        ) =~= insert_all(Map::empty(), front).insert(list.last().0, list.last().1).insert(
            path,
            inode,
        ));
    }
}

/// Where the list holds a path once, giving it another inode in its place
/// is inserting it again.
proof fn lemma_replace_in_place(
    list: Seq<(Seq<char>, InodeData)>,
    at: int,
    path: Seq<char>,
    inode: InodeData,
)
    requires
        0 <= at < list.len(),
        list[at].0 == path,
        forall|j: int| 0 <= j < list.len() && j != at ==> (#[trigger] list[j]).0 != path,
    ensures
        insert_all(Map::empty(), list.update(at, (path, inode))) == insert_all(
            Map::empty(),
            list,
        ).insert(path, inode),
    decreases list.len(),
{
    let changed = list.update(at, (path, inode));
    let front = list.drop_last();
    if at == list.len() - 1 {
        assert(changed.drop_last() =~= front);
        assert(insert_all(Map::empty(), front).insert(path, list.last().1).insert(path, inode)
            =~= insert_all(Map::empty(), front).insert(path, inode));
    } else {
        lemma_replace_in_place(front, at, path, inode);
        assert(changed.drop_last() =~= front.update(at, (path, inode)));
        assert(changed.last() == list.last());
        assert(list[list.len() - 1].0 != path);
        assert(insert_all(Map::empty(), front).insert(path, inode).insert(
            list.last().0,
            list.last().1,
        ) =~= insert_all(Map::empty(), front).insert(list.last().0, list.last().1).insert(
            path,
            inode,
        ));
    }
}

/// The insertions that the entries stand for.
pub open spec fn entries_list(entries: Seq<CacheEntry>) -> Seq<(Seq<char>, InodeData)> {
    Seq::new(entries.len(), |i: int| (entries[i].spec_path(), entries[i].spec_inode()@))
}

impl CacheEntry {
    pub closed spec fn spec_path(&self) -> Seq<char> {
        self.path@
    }

    pub closed spec fn spec_inode(&self) -> Inode {
        self.inode
    }
}

impl View for PathCache {
    type V = Map<Seq<char>, InodeData>;

    closed spec fn view(&self) -> Map<Seq<char>, InodeData> {
        insert_all(Map::empty(), entries_list(self.entries@))
    }
}

impl PathCache {
    #[verifier::type_invariant]
    spec fn ordered(self) -> bool {
        ascending(entries_list(self.entries@))
    }

    /// The empty mapping.
    pub fn new() -> (r: Self)
        ensures
            r@ == Map::<Seq<char>, InodeData>::empty(),
    {
        let r = PathCache { entries: Vec::new() };
        assert(entries_list(r.entries@) =~= Seq::empty());
        r
    }

    /// Maps `path` to `inode`, in place of the inode that `path` was mapped
    /// to, if any.
    pub fn insert(&mut self, path: String, inode: Inode)
        ensures
            final(self)@ == old(self)@.insert(path@, inode@),
    {
        proof {
            use_type_invariant(&*self);
        }
        let ghost before = entries_list(self.entries@);
        let n: usize = self.entries.len();
        let mut i: usize = 0;
        while i < n && str_before(self.entries[i].path.as_str(), path.as_str())
            invariant
                i <= n,
                n == self.entries.len(),
                before == entries_list(self.entries@),
                forall|j: int| 0 <= j < i ==> path_before((#[trigger] before[j]).0, path@),
            decreases n - i,
        {
            i = i + 1;
        }
        let found: bool = i < n && self.entries[i].path == path;
        proof {
            assert forall|j: int| 0 <= j < before.len() && j != i implies (#[trigger] before[j]).0
                != path@ by {
                if j < i {
                    lemma_before_is_strict(encode_utf8(path@));
                } else {
                    if !found {
                        lemma_paths_are_ordered(before[i as int].0, path@);
                    }
                    assert(path_before(before[i as int].0, before[j].0));
                    if before[j].0 == path@ {
                        if found {
                            lemma_before_is_strict(encode_utf8(path@));
                        } else {
                            lemma_before_is_transitive(
                                encode_utf8(path@),
                                encode_utf8(before[i as int].0),
                                encode_utf8(path@),
                            );
                            lemma_before_is_strict(encode_utf8(path@));
                        }
                    }
                }
            }
        }
        if found {
            proof {
                lemma_replace_in_place(before, i as int, path@, inode@);
            }
            let mut entries: Vec<CacheEntry> = Vec::new();
            core::mem::swap(&mut self.entries, &mut entries);
            entries[i] = CacheEntry { path, inode };
            proof {
                let after = entries_list(entries@);
                assert(after =~= before.update(i as int, (path@, inode@)));
                assert forall|a: int, b: int| 0 <= a < b < after.len() implies path_before(
                    (#[trigger] after[a]).0,
                    (#[trigger] after[b]).0,
                ) by {
                    assert(path_before(before[a].0, before[b].0));
                }
            }
            core::mem::swap(&mut self.entries, &mut entries);
        } else {
            proof {
                if i < n {
                    lemma_paths_are_ordered(before[i as int].0, path@);
                }
                lemma_insert_anywhere(before, i as int, path@, inode@);
            }
            let mut entries: Vec<CacheEntry> = Vec::new();
            core::mem::swap(&mut self.entries, &mut entries);
            entries.insert(i, CacheEntry { path, inode });
            proof {
                let after = entries_list(entries@);
                assert(after =~= before.insert(i as int, (path@, inode@)));
                assert forall|a: int, b: int| 0 <= a < b < after.len() implies path_before(
                    (#[trigger] after[a]).0,
                    (#[trigger] after[b]).0,
                ) by {
                    if b < i {
                        assert(path_before(before[a].0, before[b].0));
                    } else if b == i {
                        assert(path_before(before[a].0, path@));
                    } else if a == i {
                        if b - 1 > i {
                            assert(path_before(before[i as int].0, before[b - 1].0));
                            lemma_before_is_transitive(
                                encode_utf8(path@),
                                encode_utf8(before[i as int].0),
                                encode_utf8(before[b - 1].0),
                            );
                        }
                    } else if a < i {
                        assert(path_before(before[a].0, before[b - 1].0));
                    } else {
                        assert(path_before(before[a - 1].0, before[b - 1].0));
                    }
                }
            }
            core::mem::swap(&mut self.entries, &mut entries);
        }
    }

    /// The paths of the mapping in ascending order, each with its inode.
    pub fn list(&self) -> (r: Vec<(String, Inode)>)
        ensures
            self@ == insert_all(
                Map::empty(),
                Seq::new(r@.len(), |i: int| (r@[i].0@, r@[i].1@)),
            ),
            ascending(Seq::new(r@.len(), |i: int| (r@[i].0@, r@[i].1@))),
    {
        proof {
            use_type_invariant(self);
        }
        let mut out: Vec<(String, Inode)> = Vec::new();
        let n: usize = self.entries.len();
        let mut i: usize = 0;
        while i < n
            invariant
                i <= n,
                n == self.entries.len(),
                out@.len() == i,
                forall|k: int|
                    0 <= k < i ==> (#[trigger] out@[k]).0@ == self.entries@[k].path@ && out@[k].1
                        == self.entries@[k].inode,
            decreases n - i,
        {
            out.push((self.entries[i].path.clone(), self.entries[i].inode));
            i = i + 1;
        }
        assert(Seq::new(out@.len(), |i: int| (out@[i].0@, out@[i].1@)) =~= entries_list(
            self.entries@,
        ));
        out
    }

    /// The inode that `path` is mapped to.
    pub fn get(&self, path: &str) -> (r: Option<&Inode>)
        ensures
            r is Some <==> self@.contains_key(path@),
            r matches Some(inode) ==> inode@ == self@[path@],
    {
        let wanted = String::from_str(path);
        let ghost list = entries_list(self.entries@);
        let mut i: usize = self.entries.len();
        assert(list.subrange(0, i as int) =~= list);
        while i > 0
            invariant
                i <= self.entries.len(),
                wanted@ == path@,
                list == entries_list(self.entries@),
                self@.contains_key(path@) == insert_all(
                    Map::empty(),
                    list.subrange(0, i as int),
                ).contains_key(path@),
                self@.contains_key(path@) ==> self@[path@] == insert_all(
                    Map::empty(),
                    list.subrange(0, i as int),
                )[path@],
            decreases i,
        {
            i = i - 1;
            assert(list.subrange(0, i + 1).drop_last() =~= list.subrange(0, i as int));
            assert(list.subrange(0, i + 1).last() == list[i as int]);
            if self.entries[i].path == wanted {
                return Some(&self.entries[i].inode);
            }
        }
        None
    }
}

} // verus!
