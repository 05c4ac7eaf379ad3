use vstd::prelude::*;
use std::collections::HashMap;
use crate::mft::attributes::FileName;
use crate::mft_parser::MftEntry;

verus! {

broadcast use vstd::std_specs::hash::group_hash_axioms;

/// A file or directory of the tree that the entries of a master file table
/// describe.
pub struct Node {
    pub record_number: u32,
    pub name: String,
    pub parent: u32,
    pub children: Vec<u32>,
}

/// The mathematical value of a node.
pub struct NodeView {
    pub record_number: u32,
    pub name: Seq<char>,
    pub parent: u32,
    pub children: Seq<u32>,
}

impl View for Node {
    type V = NodeView;

    open spec fn view(&self) -> NodeView {
        NodeView {
            record_number: self.record_number,
            name: self.name@,
            parent: self.parent,
            children: self.children@,
        }
    }
}

/// The record number of the root directory, the parent of an entry without
/// file names.
pub const ROOT_RECORD_NUMBER: u64 = 5;

/// A file name in the Win32 name space, or in the name space shared by Win32
/// and DOS.
pub open spec fn is_win32_name(f: FileName) -> bool {
    f.filename_space == 1 || f.filename_space == 3
}

/// The first Win32 file name of `names`.
pub open spec fn first_win32_name(names: Seq<FileName>) -> Option<FileName>
    decreases names.len(),
{
    if names.len() == 0 {
        None
    } else if is_win32_name(names[0]) {
        Some(names[0])
    } else {
        first_win32_name(names.drop_first())
    }
}

/// The file name that describes an entry: the first Win32 one, else the
/// first one, if any.
pub open spec fn chosen_file_name(names: Seq<FileName>) -> Option<FileName> {
    match first_win32_name(names) {
        Some(f) => Some(f),
        None => if names.len() > 0 {
            Some(names[0])
        } else {
            None
        },
    }
}

/// The name of an entry: the name of its chosen file name, or "unknown"
/// where it has none.
pub open spec fn spec_node_name(e: MftEntry) -> Seq<char> {
    match chosen_file_name(e.file_names@) {
        Some(f) => match f.name {
            Some(s) => s@,
            None => "unknown"@,
        },
        None => "unknown"@,
    }
}

/// The record number of the parent of an entry: the low 32 bits of the parent
/// reference of its chosen file name, or the root directory where it has none.
pub open spec fn spec_ref_to_parent(e: MftEntry) -> u32 {
    match chosen_file_name(e.file_names@) {
        Some(f) => (f.ref_to_parent % 0x1_0000_0000) as u32,
        None => ROOT_RECORD_NUMBER as u32,
    }
}

/// The record numbers of the entries of `entries` whose parent is `rn`, in order.
pub open spec fn children_of(entries: Seq<MftEntry>, rn: u32) -> Seq<u32>
    decreases entries.len(),
{
    if entries.len() == 0 {
        Seq::empty()
    } else {
        let rest = children_of(entries.drop_last(), rn);
        if spec_ref_to_parent(entries.last()) == rn {
            rest.push(entries.last().header.record_number)
        } else {
            rest
        }
    }
}

/// The node of the entry `e` in the tree of all the entries `all`.
pub open spec fn node_of(e: MftEntry, all: Seq<MftEntry>) -> NodeView {
    NodeView {
        record_number: e.header.record_number,
        name: spec_node_name(e),
        parent: spec_ref_to_parent(e),
        children: children_of(all, e.header.record_number),
    }
}

/// The nodes of the entries `entries` in the tree of all the entries `all`,
/// by record number; where two entries share a record number, the later one
/// gives the node.
pub open spec fn spec_tree(entries: Seq<MftEntry>, all: Seq<MftEntry>) -> Map<u32, NodeView>
    decreases entries.len(),
{
    if entries.len() == 0 {
        Map::empty()
    } else {
        spec_tree(entries.drop_last(), all).insert(
            entries.last().header.record_number,
            node_of(entries.last(), all),
        )
    }
}

/// The entries of a read master file table, without their offsets.
pub open spec fn entries_of(raw_mft: Seq<(u64, MftEntry)>) -> Seq<MftEntry> {
    raw_mft.map_values(|p: (u64, MftEntry)| p.1)
}

/// The chosen file name of `names`: the first Win32 one, else the first one.
fn choose_file_name(names: &Vec<FileName>) -> (r: Option<&FileName>)
    ensures
        match r {
            Some(f) => chosen_file_name(names@) == Some(*f),
            None => chosen_file_name(names@) is None,
        },
{
    let n = names.len();
    let mut i: usize = 0;
    assert(names@.skip(0) =~= names@);
    while i < n
        invariant
            n == names@.len(),
            i <= n,
            first_win32_name(names@) == first_win32_name(names@.skip(i as int)),
        decreases n - i,
    {
        assert(names@.skip(i as int)[0] == names@[i as int]);
        if names[i].filename_space == 1 || names[i].filename_space == 3 {
            return Some(&names[i]);
        }
        assert(names@.skip(i as int).drop_first() =~= names@.skip(i + 1));
        i = i + 1;
    }
    assert(names@.skip(n as int) =~= Seq::<FileName>::empty());
    if n > 0 {
        Some(&names[0])
    } else {
        None
    }
}

/// The record number of the parent of `entry`.
pub fn get_ref_to_parent(entry: &MftEntry) -> (r: u32)
    ensures
        r == spec_ref_to_parent(*entry),
        chosen_file_name(entry.file_names@) matches Some(f) ==> r as int == f.ref_to_parent as int
            % 0x1_0000_0000,
        chosen_file_name(entry.file_names@) is None ==> r == 5,
{
    let ref_to_parent = match choose_file_name(&entry.file_names) {
        Some(f) => f.ref_to_parent,
        None => ROOT_RECORD_NUMBER,
    };
    let masked = ref_to_parent & 0x0000_FFFF_FFFF_FFFF;
    assert((ref_to_parent & 0x0000_FFFF_FFFF_FFFF) as u32 == (ref_to_parent % 0x1_0000_0000) as u32)
        by (bit_vector);
    masked as u32
}

/// The name of `entry`.
fn node_name(entry: &MftEntry) -> (name: String)
    ensures
        name@ == spec_node_name(*entry),
{
    match choose_file_name(&entry.file_names) {
        Some(f) => match &f.name {
            Some(s) => s.clone(),
            None => "unknown".to_owned(),
        },
        None => "unknown".to_owned(),
    }
}

/// Builds the tree of files and directories that the entries of a master
/// file table describe: one node per record number, with its name, its
/// parent, and the record numbers of all the entries whose parent it is.
pub fn build_tree(raw_mft: &Vec<(u64, MftEntry)>) -> (nodes: HashMap<u32, Node>)
    ensures
        nodes@.dom() == spec_tree(entries_of(raw_mft@), entries_of(raw_mft@)).dom(),
        forall|rn: u32|
            #[trigger] nodes@.contains_key(rn) ==> nodes@[rn]@ == spec_tree(
                entries_of(raw_mft@),
                entries_of(raw_mft@),
            )[rn],
{
    let ghost all = entries_of(raw_mft@);
    let mut nodes: HashMap<u32, Node> = HashMap::new();
    let n = raw_mft.len();
    proof {
        assert(all.take(0) =~= Seq::<MftEntry>::empty());
    }
    for i in 0..n
        invariant
            n == raw_mft@.len(),
            all == entries_of(raw_mft@),
            nodes@.dom() == spec_tree(all.take(i as int), all).dom(),
            forall|rn: u32|
                #[trigger] nodes@.contains_key(rn) ==> nodes@[rn]@ == spec_tree(
                    all.take(i as int),
                    all,
                )[rn],
    {
        let entry = &raw_mft[i].1;
        let name = node_name(entry);
        let mut children: Vec<u32> = Vec::new();
        for j in 0..n
            invariant
                n == raw_mft@.len(),
                all == entries_of(raw_mft@),
                *entry == all[i as int],
                children@ == children_of(all.take(j as int), entry.header.record_number),
        {
            let e = &raw_mft[j].1;
            let parent = get_ref_to_parent(e);
            proof {
                assert(all.take(j + 1).drop_last() =~= all.take(j as int));
            }
            if entry.header.record_number == parent {
                children.push(e.header.record_number);
            }
        }
        proof {
            assert(all.take(n as int) =~= all);
            assert(all.take(i + 1).drop_last() =~= all.take(i as int));
        }
        let node = Node {
            record_number: entry.header.record_number,
            name,
            parent: get_ref_to_parent(entry),
            children,
        };
        nodes.insert(entry.header.record_number, node);
    }
    proof {
        assert(all.take(n as int) =~= all);
    }
    nodes
}

/// The chosen file name is the first Win32 one, or, where there is none, the
/// first one; there is none exactly when the list is empty.
pub proof fn lemma_chosen_file_name(names: Seq<FileName>)
    ensures
        chosen_file_name(names) is None <==> names.len() == 0,
        forall|i: int|
            0 <= i < names.len() && is_win32_name(names[i]) && (forall|j: int|
                0 <= j < i ==> !is_win32_name(#[trigger] names[j])) ==> chosen_file_name(names)
                == Some(#[trigger] names[i]),
        (forall|j: int| 0 <= j < names.len() ==> !is_win32_name(#[trigger] names[j]))
            && names.len() > 0 ==> chosen_file_name(names) == Some(names[0]),
        chosen_file_name(names) matches Some(f) ==> exists|i: int|
            0 <= i < names.len() && names[i] == f,
    decreases names.len(),
{
    if names.len() > 0 {
        let rest = names.drop_first();
        lemma_chosen_file_name(rest);
        lemma_first_win32(names);
    }
}

proof fn lemma_first_win32(names: Seq<FileName>)
    ensures
        forall|i: int|
            0 <= i < names.len() && is_win32_name(names[i]) && (forall|j: int|
                0 <= j < i ==> !is_win32_name(#[trigger] names[j])) ==> first_win32_name(names)
                == Some(#[trigger] names[i]),
        (forall|j: int| 0 <= j < names.len() ==> !is_win32_name(#[trigger] names[j]))
            ==> first_win32_name(names) is None,
        first_win32_name(names) matches Some(f) ==> exists|i: int|
            0 <= i < names.len() && names[i] == f,
    decreases names.len(),
{
    if names.len() > 0 {
        let rest = names.drop_first();
        lemma_first_win32(rest);
        assert forall|i: int|
            0 <= i < names.len() && is_win32_name(names[i]) && (forall|j: int|
                0 <= j < i ==> !is_win32_name(#[trigger] names[j])) implies first_win32_name(names)
            == Some(#[trigger] names[i]) by {
            if i > 0 {
                assert(!is_win32_name(names[0]));
                assert(rest[i - 1] == names[i]);
                assert forall|j: int| 0 <= j < i - 1 implies !is_win32_name(#[trigger] rest[j]) by {
                    assert(rest[j] == names[j + 1]);
                }
            }
        }
        if forall|j: int| 0 <= j < names.len() ==> !is_win32_name(#[trigger] names[j]) {
            assert(!is_win32_name(names[0]));
            assert forall|j: int| 0 <= j < rest.len() implies !is_win32_name(#[trigger] rest[j]) by {
                assert(rest[j] == names[j + 1]);
            }
        }
        if first_win32_name(names) is Some && !is_win32_name(names[0]) {
            let i = choose|i: int| 0 <= i < rest.len() && rest[i] == first_win32_name(rest)->0;
            assert(names[i + 1] == rest[i]);
        }
    }
}

/// The parent of an entry is the low 32 bits of the parent reference of its
/// chosen file name, and the root directory, record 5, when it has no file
/// name.
pub proof fn lemma_ref_to_parent(e: MftEntry)
    ensures
        chosen_file_name(e.file_names@) matches Some(f) ==> spec_ref_to_parent(e) as int
            == f.ref_to_parent as int % 0x1_0000_0000,
        e.file_names@.len() == 0 ==> spec_ref_to_parent(e) == 5,
{
    lemma_chosen_file_name(e.file_names@);
}

/// The record numbers of `children_of(all, rn)` are exactly those of the
/// entries whose parent is `rn`.
pub proof fn lemma_children_of(all: Seq<MftEntry>, rn: u32)
    ensures
        forall|x: u32|
            children_of(all, rn).contains(x) <==> exists|i: int|
                0 <= i < all.len() && (#[trigger] all[i]).header.record_number == x
                    && spec_ref_to_parent(all[i]) == rn,
    decreases all.len(),
{
    if all.len() > 0 {
        let init = all.drop_last();
        lemma_children_of(init, rn);
        let rest = children_of(init, rn);
        assert forall|x: u32|
            children_of(all, rn).contains(x) <==> exists|i: int|
                0 <= i < all.len() && (#[trigger] all[i]).header.record_number == x
                    && spec_ref_to_parent(all[i]) == rn by {
            if children_of(all, rn).contains(x) {
                let k = choose|k: int| 0 <= k < children_of(all, rn).len() && children_of(all, rn)[k] == x;
                if k < rest.len() {
                    assert(rest[k] == x);
                    assert(rest.contains(x));
                    let i = choose|i: int|
                        0 <= i < init.len() && (#[trigger] init[i]).header.record_number == x
                            && spec_ref_to_parent(init[i]) == rn;
                    assert(all[i] == init[i]);
                } else {
                    assert(all[all.len() - 1] == all.last());
                }
            }
            if exists|i: int|
                0 <= i < all.len() && (#[trigger] all[i]).header.record_number == x
                    && spec_ref_to_parent(all[i]) == rn {
                let i = choose|i: int|
                    0 <= i < all.len() && (#[trigger] all[i]).header.record_number == x
                        && spec_ref_to_parent(all[i]) == rn;
                if i < all.len() - 1 {
                    assert(init[i] == all[i]);
                    assert(rest.contains(x));
                    let k = choose|k: int| 0 <= k < rest.len() && rest[k] == x;
                    if spec_ref_to_parent(all.last()) == rn {
                        assert(children_of(all, rn)[k] == x);
                    }
                } else {
                    assert(children_of(all, rn)[children_of(all, rn).len() - 1] == x);
                }
            }
        }
    }
}

/// The node of an entry carries its record number; its name is the name of
/// its chosen file name, or "unknown" where that has no name or the entry has
/// no file name; its parent is the low 32 bits of the chosen file name's
/// parent reference, or 5; and its children are the record numbers of the
/// entries whose parent it is.
pub proof fn lemma_node_of(e: MftEntry, all: Seq<MftEntry>)
    ensures
        node_of(e, all).record_number == e.header.record_number,
        chosen_file_name(e.file_names@) matches Some(f) ==> (f.name matches Some(s)
            ==> node_of(e, all).name == s@),
        chosen_file_name(e.file_names@) matches Some(f) ==> (f.name is None ==> node_of(
            e,
            all,
        ).name == "unknown"@),
        e.file_names@.len() == 0 ==> node_of(e, all).name == "unknown"@,
        chosen_file_name(e.file_names@) matches Some(f) ==> node_of(e, all).parent as int
            == f.ref_to_parent as int % 0x1_0000_0000,
        e.file_names@.len() == 0 ==> node_of(e, all).parent == 5,
        forall|x: u32|
            node_of(e, all).children.contains(x) <==> exists|i: int|
                0 <= i < all.len() && (#[trigger] all[i]).header.record_number == x
                    && spec_ref_to_parent(all[i]) == e.header.record_number,
{
    lemma_chosen_file_name(e.file_names@);
    lemma_ref_to_parent(e);
    lemma_children_of(all, e.header.record_number);
}

/// The tree has a node for exactly the record numbers of the entries; each
/// node is the node of the last entry with its record number, carries that
/// record number, and lists as children the entries whose parent it is.
pub proof fn lemma_tree_nodes(entries: Seq<MftEntry>, all: Seq<MftEntry>)
    ensures
        forall|rn: u32|
            #[trigger] spec_tree(entries, all).contains_key(rn) <==> exists|i: int|
                0 <= i < entries.len() && (#[trigger] entries[i]).header.record_number == rn,
        forall|rn: u32|
            #[trigger] spec_tree(entries, all).contains_key(rn) ==> exists|i: int|
                0 <= i < entries.len() && (#[trigger] entries[i]).header.record_number == rn
                    && spec_tree(entries, all)[rn] == node_of(entries[i], all) && forall|j: int|
                    i < j < entries.len() ==> (#[trigger] entries[j]).header.record_number != rn,
        forall|rn: u32|
            #[trigger] spec_tree(entries, all).contains_key(rn) ==> spec_tree(entries, all)[rn].record_number
                == rn && spec_tree(entries, all)[rn].children == children_of(all, rn),
    decreases entries.len(),
{
    if entries.len() > 0 {
        let init = entries.drop_last();
        lemma_tree_nodes(init, all);
        let last = entries.last();
        assert forall|rn: u32|
            #[trigger] spec_tree(entries, all).contains_key(rn) <==> exists|i: int|
                0 <= i < entries.len() && (#[trigger] entries[i]).header.record_number == rn by {
            if spec_tree(entries, all).contains_key(rn) && rn != last.header.record_number {
                assert(spec_tree(init, all).contains_key(rn));
                let i = choose|i: int|
                    0 <= i < init.len() && (#[trigger] init[i]).header.record_number == rn;
                assert(entries[i] == init[i]);
            }
            if rn == last.header.record_number {
                assert(entries[entries.len() - 1] == last);
            }
            if exists|i: int|
                0 <= i < entries.len() && (#[trigger] entries[i]).header.record_number == rn {
                let i = choose|i: int|
                    0 <= i < entries.len() && (#[trigger] entries[i]).header.record_number == rn;
                if i < entries.len() - 1 {
                    assert(init[i] == entries[i]);
                    assert(spec_tree(init, all).contains_key(rn));
                }
            }
        }
        assert forall|rn: u32|
            #[trigger] spec_tree(entries, all).contains_key(rn) implies exists|i: int|
                0 <= i < entries.len() && (#[trigger] entries[i]).header.record_number == rn
                    && spec_tree(entries, all)[rn] == node_of(entries[i], all) && forall|j: int|
                    i < j < entries.len() ==> (#[trigger] entries[j]).header.record_number
                        != rn by {
            if rn == last.header.record_number {
                let i = entries.len() - 1;
                assert(entries[i] == last);
            } else {
                assert(spec_tree(init, all).contains_key(rn));
                let i = choose|i: int|
                    0 <= i < init.len() && (#[trigger] init[i]).header.record_number == rn
                        && spec_tree(init, all)[rn] == node_of(init[i], all) && forall|j: int|
                        i < j < init.len() ==> (#[trigger] init[j]).header.record_number != rn;
                assert(entries[i] == init[i]);
                assert forall|j: int| i < j < entries.len() implies (#[trigger] entries[
                    j
                ]).header.record_number != rn by {
                    if j < entries.len() - 1 {
                        assert(entries[j] == init[j]);
                    }
                }
            }
        }
    }
}

} // verus!
