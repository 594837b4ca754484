//! Laws of the cache of paths: every file that a chain of directory entries
//! reaches from the root is cached under its absolute path, every path in
//! the cache is the path of such a file, and no directory is cached.

use crate::minixfs3::{
    dir_entry, dir_entry_count, entries_files, entry_files, entry_limit, entry_path, inode_of,
    mode_is_directory, tree_files, InodeData, MinixFileSystem, SuperBlock, DIR_ENTRY_START,
    ROOT_NODE,
};
use crate::path_cache::{insert_all, lemma_inserted_is_key, lemma_value_is_inserted};
use vstd::prelude::*;

verus! {

/// The entry that is reached from the directory `inode_num`, whose path is
/// `cwd`, by taking the entries with the indices `steps` one after the
/// other: its path and the number of its inode. Every entry on the way but
/// the final one must be a directory, and none is one of the first two
/// entries of its directory.
pub open spec fn follow(
    disk: Seq<u8>,
    sb: SuperBlock,
    cwd: Seq<char>,
    inode_num: u32,
    steps: Seq<int>,
) -> Option<(Seq<char>, u32)>
    decreases steps.len(),
{
    if steps.len() == 0 {
        None
    } else {
        match inode_of(sb, disk, inode_num) {
            None => None,
            Some(dir) => {
                if DIR_ENTRY_START <= steps[0] < dir_entry_count(disk, dir) {
                    let path = entry_path(disk, dir, cwd, inode_num, steps[0]);
                    let child_num = dir_entry(disk, dir, steps[0]).inode;
                    if steps.len() == 1 {
                        Some((path, child_num))
                    } else {
                        match inode_of(sb, disk, child_num) {
                            None => None,
                            Some(child) => if mode_is_directory(child.mode) {
                                follow(disk, sb, path, child_num, steps.drop_first())
                            } else {
                                None
                            },
                        }
                    }
                } else {
                    None
                }
            },
        }
    }
}

/// What entry `i` puts into the cache, the entries before entry `n` put
/// there too, for every `n` behind `i`.
proof fn lemma_entry_among_entries(
    disk: Seq<u8>,
    sb: SuperBlock,
    cwd: Seq<char>,
    inode_num: u32,
    dir: InodeData,
    depth: nat,
    i: int,
    n: nat,
    x: (Seq<char>, InodeData),
)
    requires
        DIR_ENTRY_START <= i < n <= entry_limit(),
        entry_files(disk, sb, cwd, inode_num, dir, depth, i).contains(x),
    ensures
        entries_files(disk, sb, cwd, inode_num, dir, depth, n).contains(x),
    decreases n,
{
    let before = entries_files(disk, sb, cwd, inode_num, dir, depth, (n - 1) as nat);
    let last = entry_files(disk, sb, cwd, inode_num, dir, depth, n - 1);
    let all = entries_files(disk, sb, cwd, inode_num, dir, depth, n);
    assert(all == before + last) by {
        reveal_with_fuel(entries_files, 2);
    }
    if i == n - 1 {
        let k = choose|k: int| 0 <= k < last.len() && last[k] == x;
        assert(all[before.len() + k] == x);
    } else {
        lemma_entry_among_entries(disk, sb, cwd, inode_num, dir, depth, i, (n - 1) as nat, x);
        let k = choose|k: int| 0 <= k < before.len() && before[k] == x;
        assert(all[k] == x);
    }
}

/// A file that a chain of entries reaches is among the files of the walk,
/// where the walk goes as deep as the chain.
proof fn lemma_followed_is_walked(
    disk: Seq<u8>,
    sb: SuperBlock,
    cwd: Seq<char>,
    inode_num: u32,
    steps: Seq<int>,
    depth: nat,
    path: Seq<char>,
    file_num: u32,
    file: InodeData,
)
    requires
        follow(disk, sb, cwd, inode_num, steps) == Some((path, file_num)),
        inode_of(sb, disk, file_num) == Some(file),
        !mode_is_directory(file.mode),
        steps.len() <= depth + 1,
    ensures
        tree_files(disk, sb, cwd, inode_num, depth).contains((path, file)),
    decreases steps.len(),
{
    let dir = inode_of(sb, disk, inode_num)->0;
    let i = steps[0];
    let n = dir_entry_count(disk, dir) as nat;
    let here = entry_files(disk, sb, cwd, inode_num, dir, depth, i);
    if steps.len() == 1 {
        assert(here[0] == (path, file));
    } else {
        let next = entry_path(disk, dir, cwd, inode_num, i);
        let child_num = dir_entry(disk, dir, i).inode;
        lemma_followed_is_walked(
            disk,
            sb,
            next,
            child_num,
            steps.drop_first(),
            (depth - 1) as nat,
            path,
            file_num,
            file,
        );
    }
    lemma_entry_among_entries(disk, sb, cwd, inode_num, dir, depth, i, n, (path, file));
}

/// No file of the walk is a directory.
proof fn lemma_walked_is_no_directory(
    disk: Seq<u8>,
    sb: SuperBlock,
    cwd: Seq<char>,
    inode_num: u32,
    depth: nat,
    x: (Seq<char>, InodeData),
)
    requires
        tree_files(disk, sb, cwd, inode_num, depth).contains(x),
    ensures
        !mode_is_directory(x.1.mode),
    decreases depth, entry_limit() + 1,
{
    let dir = inode_of(sb, disk, inode_num)->0;
    lemma_entries_are_no_directory(
        disk,
        sb,
        cwd,
        inode_num,
        dir,
        depth,
        dir_entry_count(disk, dir) as nat,
        x,
    );
}

proof fn lemma_entries_are_no_directory(
    disk: Seq<u8>,
    sb: SuperBlock,
    cwd: Seq<char>,
    inode_num: u32,
    dir: InodeData,
    depth: nat,
    n: nat,
    x: (Seq<char>, InodeData),
)
    requires
        entries_files(disk, sb, cwd, inode_num, dir, depth, n).contains(x),
    ensures
        !mode_is_directory(x.1.mode),
    decreases depth, n,
{
    let all = entries_files(disk, sb, cwd, inode_num, dir, depth, n);
    if n <= DIR_ENTRY_START || n > entry_limit() {
    } else {
        let before = entries_files(disk, sb, cwd, inode_num, dir, depth, (n - 1) as nat);
        let last = entry_files(disk, sb, cwd, inode_num, dir, depth, n - 1);
        assert(all == before + last) by {
            reveal_with_fuel(entries_files, 2);
        }
        let k = choose|k: int| 0 <= k < all.len() && all[k] == x;
        if k < before.len() {
            assert(before[k] == x);
            lemma_entries_are_no_directory(disk, sb, cwd, inode_num, dir, depth, (n - 1) as nat, x);
        } else {
            assert(last[k - before.len()] == x);
            let child_num = dir_entry(disk, dir, n - 1).inode;
            let child = inode_of(sb, disk, child_num)->0;
            if mode_is_directory(child.mode) {
                lemma_walked_is_no_directory(
                    disk,
                    sb,
                    entry_path(disk, dir, cwd, inode_num, n - 1),
                    child_num,
                    (depth - 1) as nat,
                    x,
                );
            }
        }
    }
}

/// After the filesystem was mounted on `disk`, every file that a chain of
/// directory entries reaches from the root directory is in the cache under
/// its absolute path. The chain is no longer than the walk goes deep: as
/// many directories as the filesystem has inodes.
pub proof fn lemma_reachable_file_is_cached(
    fs: MinixFileSystem,
    disk: Seq<u8>,
    steps: Seq<int>,
    path: Seq<char>,
    file_num: u32,
    file: InodeData,
)
    requires
        fs.cache() == insert_all(
            Map::empty(),
            tree_files(disk, fs.superblock(), seq!['/'], ROOT_NODE, fs.superblock().ninodes as nat),
        ),
        follow(disk, fs.superblock(), seq!['/'], ROOT_NODE, steps) == Some((path, file_num)),
        inode_of(fs.superblock(), disk, file_num) == Some(file),
        !mode_is_directory(file.mode),
        steps.len() <= fs.superblock().ninodes + 1,
    ensures
        fs.cache().contains_key(path),
        !mode_is_directory(fs.cache()[path].mode),
{
    let sb = fs.superblock();
    let list = tree_files(disk, sb, seq!['/'], ROOT_NODE, sb.ninodes as nat);
    lemma_followed_is_walked(
        disk,
        sb,
        seq!['/'],
        ROOT_NODE,
        steps,
        sb.ninodes as nat,
        path,
        file_num,
        file,
    );
    let k = choose|k: int| 0 <= k < list.len() && list[k] == (path, file);
    lemma_inserted_is_key(Map::empty(), list, k);
    lemma_cached_is_no_directory(fs, disk, path);
}

/// After the filesystem was mounted on `disk`, no inode in the cache is a
/// directory.
pub proof fn lemma_cached_is_no_directory(fs: MinixFileSystem, disk: Seq<u8>, path: Seq<char>)
    requires
        fs.cache() == insert_all(
            Map::empty(),
            tree_files(disk, fs.superblock(), seq!['/'], ROOT_NODE, fs.superblock().ninodes as nat),
        ),
        fs.cache().contains_key(path),
    ensures
        !mode_is_directory(fs.cache()[path].mode),
{
    let sb = fs.superblock();
    let list = tree_files(disk, sb, seq!['/'], ROOT_NODE, sb.ninodes as nat);
    lemma_value_is_inserted(list, path);
    let k = choose|k: int|
        0 <= k < list.len() && (#[trigger] list[k]).0 == path && list[k].1 == insert_all(
            Map::empty(),
            list,
        )[path];
    assert(list.contains(list[k]));
    lemma_walked_is_no_directory(disk, sb, seq!['/'], ROOT_NODE, sb.ninodes as nat, list[k]);
}

/// The chain of entries `steps` leads from the directory `inode_num`, whose
/// path is `cwd`, to a file under the path `x.0` whose inode is `x.1`, and is
/// no longer than the walk goes deep.
pub open spec fn leads_to(
    disk: Seq<u8>,
    sb: SuperBlock,
    cwd: Seq<char>,
    inode_num: u32,
    depth: nat,
    steps: Seq<int>,
    x: (Seq<char>, InodeData),
) -> bool {
    &&& 1 <= steps.len() <= depth + 1
    &&& follow(disk, sb, cwd, inode_num, steps) matches Some(end)
    &&& end.0 == x.0
    &&& inode_of(sb, disk, end.1) == Some(x.1)
    &&& !mode_is_directory(x.1.mode)
}

/// Some chain of entries leads to the file.
pub open spec fn reached(
    disk: Seq<u8>,
    sb: SuperBlock,
    cwd: Seq<char>,
    inode_num: u32,
    depth: nat,
    x: (Seq<char>, InodeData),
) -> bool {
    exists|steps: Seq<int>| #[trigger] leads_to(disk, sb, cwd, inode_num, depth, steps, x)
}

/// Every file of the walk is reached by a chain of entries.
proof fn lemma_walked_is_followed(
    disk: Seq<u8>,
    sb: SuperBlock,
    cwd: Seq<char>,
    inode_num: u32,
    depth: nat,
    x: (Seq<char>, InodeData),
)
    requires
        tree_files(disk, sb, cwd, inode_num, depth).contains(x),
    ensures
        reached(disk, sb, cwd, inode_num, depth, x),
    decreases depth, entry_limit() + 1,
{
    let dir = inode_of(sb, disk, inode_num)->0;
    lemma_entries_are_followed(
        disk,
        sb,
        cwd,
        inode_num,
        dir,
        depth,
        dir_entry_count(disk, dir) as nat,
        x,
    );
}

proof fn lemma_entries_are_followed(
    disk: Seq<u8>,
    sb: SuperBlock,
    cwd: Seq<char>,
    inode_num: u32,
    dir: InodeData,
    depth: nat,
    n: nat,
    x: (Seq<char>, InodeData),
)
    requires
        inode_of(sb, disk, inode_num) == Some(dir),
        n <= dir_entry_count(disk, dir),
        entries_files(disk, sb, cwd, inode_num, dir, depth, n).contains(x),
    ensures
        reached(disk, sb, cwd, inode_num, depth, x),
    decreases depth, n,
{
    let all = entries_files(disk, sb, cwd, inode_num, dir, depth, n);
    if n <= DIR_ENTRY_START || n > entry_limit() {
    } else {
        let before = entries_files(disk, sb, cwd, inode_num, dir, depth, (n - 1) as nat);
        let last = entry_files(disk, sb, cwd, inode_num, dir, depth, n - 1);
        assert(all == before + last) by {
            reveal_with_fuel(entries_files, 2);
        }
        let k = choose|k: int| 0 <= k < all.len() && all[k] == x;
        if k < before.len() {
            assert(before[k] == x);
            lemma_entries_are_followed(disk, sb, cwd, inode_num, dir, depth, (n - 1) as nat, x);
        } else {
            assert(last[k - before.len()] == x);
            let i = n - 1;
            let child_num = dir_entry(disk, dir, i).inode;
            let child = inode_of(sb, disk, child_num)->0;
            let path = entry_path(disk, dir, cwd, inode_num, i);
            if mode_is_directory(child.mode) {
                lemma_walked_is_followed(disk, sb, path, child_num, (depth - 1) as nat, x);
                let inner = choose|inner: Seq<int>| #[trigger]
                    leads_to(disk, sb, path, child_num, (depth - 1) as nat, inner, x);
                let steps = seq![i] + inner;
                assert(steps.drop_first() =~= inner);
                assert(leads_to(disk, sb, cwd, inode_num, depth, steps, x));
            } else {
                let steps = seq![i];
                assert(leads_to(disk, sb, cwd, inode_num, depth, steps, x));
            }
        }
    }
}

/// After the filesystem was mounted on `disk`, every path in the cache is the
/// absolute path of a file that a chain of directory entries reaches from
/// the root directory, and the inode in the cache is the inode of such a
/// file: the cache holds no other keys.
pub proof fn lemma_cached_is_reachable(fs: MinixFileSystem, disk: Seq<u8>, path: Seq<char>)
    requires
        fs.cache() == insert_all(
            Map::empty(),
            tree_files(disk, fs.superblock(), seq!['/'], ROOT_NODE, fs.superblock().ninodes as nat),
        ),
        fs.cache().contains_key(path),
    ensures
        reached(
            disk,
            fs.superblock(),
            seq!['/'],
            ROOT_NODE,
            fs.superblock().ninodes as nat,
            (path, fs.cache()[path]),
        ),
{
    let sb = fs.superblock();
    let list = tree_files(disk, sb, seq!['/'], ROOT_NODE, sb.ninodes as nat);
    lemma_value_is_inserted(list, path);
    let k = choose|k: int|
        0 <= k < list.len() && (#[trigger] list[k]).0 == path && list[k].1 == insert_all(
            Map::empty(),
            list,
        )[path];
    assert(list.contains(list[k]));
    assert(list[k] == (path, fs.cache()[path]));
    lemma_walked_is_followed(disk, sb, seq!['/'], ROOT_NODE, sb.ninodes as nat, list[k]);
}

/// After the filesystem was mounted on `disk`, the inode that the cache holds
/// under the path of a reachable file is the inode of that file, where no
/// other chain of entries leads to another inode under the same path.
pub proof fn lemma_cached_inode_is_the_file(
    fs: MinixFileSystem,
    disk: Seq<u8>,
    steps: Seq<int>,
    path: Seq<char>,
    file: InodeData,
)
    requires
        fs.cache() == insert_all(
            Map::empty(),
            tree_files(disk, fs.superblock(), seq!['/'], ROOT_NODE, fs.superblock().ninodes as nat),
        ),
        leads_to(
            disk,
            fs.superblock(),
            seq!['/'],
            ROOT_NODE,
            fs.superblock().ninodes as nat,
            steps,
            (path, file),
        ),
        forall|others: Seq<int>, other: InodeData| #[trigger]
            leads_to(
                disk,
                fs.superblock(),
                seq!['/'],
                ROOT_NODE,
                fs.superblock().ninodes as nat,
                others,
                (path, other),
            ) ==> other == file,
    ensures
        fs.cache().contains_key(path),
        fs.cache()[path] == file,
{
    let sb = fs.superblock();
    let end = follow(disk, sb, seq!['/'], ROOT_NODE, steps)->0;
    lemma_reachable_file_is_cached(fs, disk, steps, path, end.1, file);
    lemma_cached_is_reachable(fs, disk, path);
    let others = choose|others: Seq<int>| #[trigger]
        leads_to(
            disk,
            sb,
            seq!['/'],
            ROOT_NODE,
            sb.ninodes as nat,
            others,
            (path, fs.cache()[path]),
        );
    assert(fs.cache()[path] == file);
}

} // verus!
