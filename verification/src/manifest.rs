//! The manifest of built-in actors: the code of each actor kind.

use vstd::prelude::*;
use crate::blockstore::BlockSource;
use crate::codec::{
    array_at, read_array, read_string, read_target, read_uint, string_at, target_at, uint_at,
};
use crate::content_id::{CidModel, ContentId};
use crate::error::Fault;

verus! {

/// The manifest version that this library reads.
pub const MANIFEST_VERSION: u32 = 1;

/// The mathematical value of one manifest entry: the name of an actor kind,
/// as UTF-8 bytes, and the identifier of its code.
pub type EntryModel = (Seq<u8>, CidModel);

/// The values of a list of manifest entries.
pub open spec fn kinds(list: Seq<(Vec<u8>, ContentId)>) -> Seq<EntryModel> {
    Seq::new(list.len(), |i: int| (list[i].0@, list[i].1@))
}

/// The manifest entry written at `pos`, and the position after it: an array
/// of a text string and a link.
pub open spec fn kind_at(bytes: Seq<u8>, pos: int) -> Option<(EntryModel, int)> {
    match array_at(bytes, pos) {
        Some((n, pos1)) => match string_at(bytes, pos1, 3) {
            Some((name, pos2)) => match target_at(bytes, pos2) {
                Some((code, pos3)) => if n == 2 {
                    Some(((name, code), pos3))
                } else {
                    None
                },
                None => None,
            },
            None => None,
        },
        None => None,
    }
}

/// The first `n` manifest entries written from `pos`, and the position
/// after them.
pub open spec fn kinds_at(bytes: Seq<u8>, pos: int, n: nat) -> Option<(Seq<EntryModel>, int)>
    decreases n,
{
    if n == 0 {
        Some((Seq::empty(), pos))
    } else {
        match kinds_at(bytes, pos, (n - 1) as nat) {
            None => None,
            Some((front, p)) => match kind_at(bytes, p) {
                None => None,
                Some((e, next)) => Some((front.push(e), next)),
            },
        }
    }
}

/// The manifest that the bytes hold, if they hold one and nothing else: an
/// array of entries.
pub open spec fn manifest_of(bytes: Seq<u8>) -> Option<Seq<EntryModel>> {
    match array_at(bytes, 0) {
        Some((n, p)) => match kinds_at(bytes, p, n as nat) {
            Some((list, end)) => if end == bytes.len() {
                Some(list)
            } else {
                None
            },
            None => None,
        },
        None => None,
    }
}

/// Where fewer entries cannot be read, more cannot either.
proof fn lemma_kinds_fail(bytes: Seq<u8>, pos: int, k: nat, n: nat)
    requires
        k <= n,
        kinds_at(bytes, pos, k) is None,
    ensures
        kinds_at(bytes, pos, n) is None,
    decreases n,
{
    if k < n {
        lemma_kinds_fail(bytes, pos, k, (n - 1) as nat);
    }
}

/// The pointer to a manifest that the bytes hold, if they hold one and
/// nothing else: an array of a version and a link.
pub open spec fn pointer_of(bytes: Seq<u8>) -> Option<(u32, CidModel)> {
    match array_at(bytes, 0) {
        Some((n, pos1)) => match uint_at(bytes, pos1) {
            Some((version, pos2)) => match target_at(bytes, pos2) {
                Some((target, pos3)) => if n == 2 && pos3 == bytes.len() && version <= u32::MAX {
                    Some((version as u32, target))
                } else {
                    None
                },
                None => None,
            },
            None => None,
        },
        None => None,
    }
}

/// The link to the manifest that the state of the system actor holds, if
/// the bytes are such a state and nothing else: an array of one link.
pub open spec fn system_state_of(bytes: Seq<u8>) -> Option<CidModel> {
    match array_at(bytes, 0) {
        Some((n, pos1)) => match target_at(bytes, pos1) {
            Some((target, pos2)) => if n == 1 && pos2 == bytes.len() {
                Some(target)
            } else {
                None
            },
            None => None,
        },
        None => None,
    }
}

/// Reads a pointer to a manifest.
pub fn decode_pointer(bytes: &[u8]) -> (r: Option<(u32, ContentId)>)
    ensures
        match r {
            Some((version, target)) => pointer_of(bytes@) == Some((version, target@)),
            None => pointer_of(bytes@) is None,
        },
{
    let (n, pos1) = match read_array(bytes, 0) {
        Some(x) => x,
        None => {
            return None;
        },
    };
    let (version, pos2) = match read_uint(bytes, pos1) {
        Some(x) => x,
        None => {
            return None;
        },
    };
    let (target, pos3) = match read_target(bytes, pos2) {
        Some(x) => x,
        None => {
            return None;
        },
    };
    if n != 2 || pos3 != bytes.len() || version > u32::MAX as u64 {
        return None;
    }
    Some((version as u32, target))
}

/// Reads the link to the manifest from the state of the system actor.
pub fn decode_system_state(bytes: &[u8]) -> (r: Option<ContentId>)
    ensures
        match r {
            Some(target) => system_state_of(bytes@) == Some(target@),
            None => system_state_of(bytes@) is None,
        },
{
    let (n, pos1) = match read_array(bytes, 0) {
        Some(x) => x,
        None => {
            return None;
        },
    };
    let (target, pos2) = match read_target(bytes, pos1) {
        Some(x) => x,
        None => {
            return None;
        },
    };
    if n != 1 || pos2 != bytes.len() {
        return None;
    }
    Some(target)
}

/// Reads the entries of a manifest.
pub fn decode_manifest(bytes: &[u8]) -> (r: Option<Vec<(Vec<u8>, ContentId)>>)
    ensures
        match r {
            Some(list) => manifest_of(bytes@) == Some(kinds(list@)),
            None => manifest_of(bytes@) is None,
        },
{
    let len: usize = bytes.len();
    let (n, start) = match read_array(bytes, 0) {
        Some(x) => x,
        None => {
            return None;
        },
    };
    let mut out: Vec<(Vec<u8>, ContentId)> = Vec::new();
    let mut pos: usize = start;
    let mut i: u64 = 0;
    assert(kinds(out@) =~= Seq::empty());
    while i < n
        invariant
            i <= n,
            len == bytes@.len(),
            pos <= len,
            array_at(bytes@, 0) == Some((n, start as int)),
            kinds_at(bytes@, start as int, i as nat) == Some((kinds(out@), pos as int)),
        decreases n - i,
    {
        let (count, pos1) = match read_array(bytes, pos) {
            Some(x) => x,
            None => {
                proof {
                    lemma_kinds_fail(bytes@, start as int, (i + 1) as nat, n as nat);
                }
                return None;
            },
        };
        let (name, pos2) = match read_string(bytes, pos1, 3) {
            Some(x) => x,
            None => {
                proof {
                    lemma_kinds_fail(bytes@, start as int, (i + 1) as nat, n as nat);
                }
                return None;
            },
        };
        let (code, pos3) = match read_target(bytes, pos2) {
            Some(x) => x,
            None => {
                proof {
                    lemma_kinds_fail(bytes@, start as int, (i + 1) as nat, n as nat);
                }
                return None;
            },
        };
        if count != 2 {
            proof {
                lemma_kinds_fail(bytes@, start as int, (i + 1) as nat, n as nat);
            }
            return None;
        }
        let ghost so_far = kinds(out@);
        let ghost value = (name@, code@);
        out.push((name, code));
        assert(kinds(out@) =~= so_far.push(value));
        pos = pos3;
        i = i + 1;
    }
    if pos != len {
        return None;
    }
    Some(out)
}

/// The code of the built-in actors, by the name of their kind.
#[derive(Debug)]
pub struct Manifest {
    version: u32,
    source: ContentId,
    entries: Vec<(Vec<u8>, ContentId)>,
}

/// The manifest that `blocks` holds under `id` for the version `version`.
pub open spec fn manifest_at(blocks: Map<CidModel, Seq<u8>>, id: CidModel, version: u32) -> Option<
    Seq<EntryModel>,
> {
    if version == MANIFEST_VERSION && blocks.contains_key(id) {
        manifest_of(blocks[id])
    } else {
        None
    }
}

/// The code that a list of entries gives for `name`: that of the first
/// entry with the name.
pub open spec fn code_for(list: Seq<EntryModel>, name: Seq<u8>) -> Option<CidModel>
    decreases list.len(),
{
    if list.len() == 0 {
        None
    } else if list.first().0 == name {
        Some(list.first().1)
    } else {
        code_for(list.drop_first(), name)
    }
}

impl Manifest {
    /// The version of the manifest.
    pub closed spec fn version_view(&self) -> u32 {
        self.version
    }

    /// The identifier of the block that the manifest was read from.
    pub closed spec fn source_view(&self) -> CidModel {
        self.source@
    }

    /// The entries of the manifest, in the order in which they are written.
    pub closed spec fn entries_view(&self) -> Seq<EntryModel> {
        kinds(self.entries@)
    }

    /// Reads the manifest stored under `id`. Only the known version is read.
    pub fn load<S: BlockSource>(store: &S, id: &ContentId, version: u32) -> (r: Result<
        Manifest,
        Fault,
    >)
        ensures
            match r {
                Ok(m) => manifest_at(store.blocks(), id@, version) == Some(m.entries_view())
                    && m.version_view() == version && m.source_view() == id@,
                Err(Fault::Corrupt) => manifest_at(store.blocks(), id@, version) is None,
                Err(Fault::Store) => !store.reliable() && version == MANIFEST_VERSION,
                Err(_) => false,
            },
    {
        if version != MANIFEST_VERSION {
            return Err(Fault::Corrupt);
        }
        let bytes = match store.get(id) {
            Err(_) => {
                return Err(Fault::Store);
            },
            Ok(None) => {
                return Err(Fault::Corrupt);
            },
            Ok(Some(bytes)) => bytes,
        };
        match decode_manifest(bytes.as_slice()) {
            None => Err(Fault::Corrupt),
            Some(entries) => Ok(Manifest { version, source: id.clone(), entries }),
        }
    }

    /// The version of the manifest.
    pub fn version(&self) -> (v: u32)
        ensures
            v == self.version_view(),
    {
        self.version
    }

    /// The identifier of the block that the manifest was read from.
    pub fn source(&self) -> (id: &ContentId)
        ensures
            id@ == self.source_view(),
    {
        &self.source
    }

    /// How many actor kinds the manifest lists.
    pub fn len(&self) -> (n: usize)
        ensures
            n == self.entries_view().len(),
    {
        self.entries.len()
    }

    /// The code of the actor kind `name`.
    pub fn code_by_name(&self, name: &[u8]) -> (r: Option<ContentId>)
        ensures
            crate::content_id::found_id(r) == code_for(self.entries_view(), name@),
    {
        let ghost list = kinds(self.entries@);
        let mut i: usize = 0;
        assert(list.skip(0) =~= list);
        while i < self.entries.len()
            invariant
                i <= self.entries@.len(),
                list == kinds(self.entries@),
                code_for(list, name@) == code_for(list.skip(i as int), name@),
            decreases self.entries@.len() - i,
        {
            assert(list.skip(i as int).first() == list[i as int]);
            assert(list.skip(i as int).drop_first() =~= list.skip(i + 1));
            if same_bytes(self.entries[i].0.as_slice(), name) {
                return Some(self.entries[i].1.clone());
            }
            i = i + 1;
        }
        None
    }
}

/// Whether two strings of bytes are the same.
pub fn same_bytes(a: &[u8], b: &[u8]) -> (r: bool)
    ensures
        r == (a@ == b@),
{
    if a.len() != b.len() {
        return false;
    }
    let mut i: usize = 0;
    while i < a.len()
        invariant
            i <= a@.len(),
            a@.len() == b@.len(),
            forall|j: int| 0 <= j < i ==> a@[j] == b@[j],
        decreases a@.len() - i,
    {
        if a[i] != b[i] {
            return false;
        }
        i = i + 1;
    }
    assert(a@ =~= b@);
    true
}

} // verus!
