//! Nodes of the dependency graph: their kinds, descriptions and sizes.
use vstd::prelude::*;

verus! {

/// The kind of a node, without its payload.
#[derive(Clone, Copy, Debug, PartialEq, Eq, Structural, PartialOrd, Ord)]
pub enum NodeKind {
    Path,
    Link,
    Dummy,
    FilteredOut,
    Memory,
    Temporary,
    Transient,
    Shared,
}

pub open spec fn gc_root_kind(k: NodeKind) -> bool {
    k == NodeKind::Transient || k == NodeKind::Link || k == NodeKind::Memory || k
        == NodeKind::Temporary
}

pub open spec fn transient_kind(k: NodeKind) -> bool {
    k == NodeKind::Memory || k == NodeKind::Temporary
}

impl NodeKind {
    /// Whether a node of this kind keeps its dependencies alive.
    pub fn is_gc_root(self) -> (r: bool)
        ensures
            r == gc_root_kind(self),
    {
        match self {
            NodeKind::Transient | NodeKind::Link | NodeKind::Memory | NodeKind::Temporary => true,
            NodeKind::FilteredOut | NodeKind::Path | NodeKind::Shared | NodeKind::Dummy => false,
        }
    }

    /// Whether a node of this kind is a root bound to the lifetime of a process.
    pub fn is_transient(self) -> (r: bool)
        ensures
            r == transient_kind(self),
    {
        match self {
            NodeKind::Memory | NodeKind::Temporary => true,
            NodeKind::Transient | NodeKind::Link | NodeKind::FilteredOut | NodeKind::Path
            | NodeKind::Shared | NodeKind::Dummy => false,
        }
    }
}

/// What a node stands for, with its raw bytes where it has some.
#[derive(Clone, Debug, PartialEq, Eq, PartialOrd, Ord, Hash)]
pub enum NodeDescription {
    /// A valid store path.
    Path(Vec<u8>),
    /// An indirect root, a link on the filesystem.
    Link(Vec<u8>),
    /// A synthetic root whose children are all gc roots.
    Dummy,
    /// A node gathering the size of all filtered out nodes.
    FilteredOut,
    /// A node gathering all memory and temporary roots.
    Transient,
    /// An in-memory root.
    Memory(Vec<u8>),
    /// A temporary root.
    Temporary(Vec<u8>),
    /// A set of inodes shared between store paths by hard links.
    Shared(Vec<u8>),
}

impl NodeDescription {
    pub open spec fn kind_of(self) -> NodeKind {
        match self {
            NodeDescription::Path(_) => NodeKind::Path,
            NodeDescription::Link(_) => NodeKind::Link,
            NodeDescription::Memory(_) => NodeKind::Memory,
            NodeDescription::Temporary(_) => NodeKind::Temporary,
            NodeDescription::Shared(_) => NodeKind::Shared,
            NodeDescription::Dummy => NodeKind::Dummy,
            NodeDescription::FilteredOut => NodeKind::FilteredOut,
            NodeDescription::Transient => NodeKind::Transient,
        }
    }

    /// The bytes carried by the description, if any.
    pub open spec fn payload(self) -> Option<Seq<u8>> {
        match self {
            NodeDescription::Path(p) => Some(p@),
            NodeDescription::Link(p) => Some(p@),
            NodeDescription::Memory(p) => Some(p@),
            NodeDescription::Temporary(p) => Some(p@),
            NodeDescription::Shared(p) => Some(p@),
            _ => None,
        }
    }

    pub fn kind(&self) -> (r: NodeKind)
        ensures
            r == self.kind_of(),
    {
        match self {
            NodeDescription::Path(_) => NodeKind::Path,
            NodeDescription::Link(_) => NodeKind::Link,
            NodeDescription::Memory(_) => NodeKind::Memory,
            NodeDescription::Temporary(_) => NodeKind::Temporary,
            NodeDescription::Shared(_) => NodeKind::Shared,
            NodeDescription::Dummy => NodeKind::Dummy,
            NodeDescription::FilteredOut => NodeKind::FilteredOut,
            NodeDescription::Transient => NodeKind::Transient,
        }
    }

    /// The bytes of the path (or identifier, or base name) of this node.
    pub fn path(&self) -> (r: Option<&Vec<u8>>)
        ensures
            r.is_some() == self.payload().is_some(),
            r.is_some() ==> r.unwrap()@ == self.payload().unwrap(),
    {
        match self {
            NodeDescription::Path(p) => Some(p),
            NodeDescription::Link(p) => Some(p),
            NodeDescription::Memory(p) => Some(p),
            NodeDescription::Temporary(p) => Some(p),
            NodeDescription::Shared(p) => Some(p),
            NodeDescription::Transient | NodeDescription::Dummy | NodeDescription::FilteredOut => {
                None
            },
        }
    }
}

/// A node of the dependency graph.
#[derive(Clone, Debug, PartialEq, Eq, PartialOrd, Ord, Hash)]
pub struct DepNode {
    pub description: NodeDescription,
    /// size in bytes
    pub size: u64,
}

impl DepNode {
    pub open spec fn dummy_spec() -> DepNode {
        DepNode { description: NodeDescription::Dummy, size: 0 }
    }

    pub fn dummy() -> (r: DepNode)
        ensures
            r == DepNode::dummy_spec(),
    {
        DepNode { description: NodeDescription::Dummy, size: 0 }
    }

    pub fn kind(&self) -> (r: NodeKind)
        ensures
            r == self.description.kind_of(),
    {
        self.description.kind()
    }
}

/// Whether `s` begins with `p`.
pub open spec fn starts_with(s: Seq<u8>, p: Seq<u8>) -> bool {
    p.len() <= s.len() && s.subrange(0, p.len() as int) == p
}

pub fn bytes_start_with(s: &[u8], p: &[u8]) -> (r: bool)
    ensures
        r == starts_with(s@, p@),
{
    if p.len() > s.len() {
        return false;
    }
    let mut i: usize = 0;
    while i < p.len()
        invariant
            p@.len() <= s@.len(),
            i <= p@.len(),
            forall|j: int| 0 <= j < i ==> s@[j] == p@[j],
        decreases p@.len() - i,
    {
        if s[i] != p[i] {
            assert(s@.subrange(0, p@.len() as int)[i as int] != p@[i as int]);
            return false;
        }
        i += 1;
    }
    assert(s@.subrange(0, p@.len() as int) =~= p@);
    true
}

pub open spec fn proc_prefix() -> Seq<u8> {
    seq![47u8, 112u8, 114u8, 111u8, 99u8, 47u8]
}

pub open spec fn memory_prefix() -> Seq<u8> {
    seq![123u8, 109u8, 101u8, 109u8, 111u8, 114u8, 121u8, 58u8]
}

pub open spec fn lsof_marker() -> Seq<u8> {
    seq![123u8, 108u8, 115u8, 111u8, 102u8, 125u8]
}

pub open spec fn censored_marker() -> Seq<u8> {
    seq![123u8, 99u8, 101u8, 110u8, 115u8, 111u8, 114u8, 101u8, 100u8, 125u8]
}

pub open spec fn temp_prefix() -> Seq<u8> {
    seq![123u8, 116u8, 101u8, 109u8, 112u8, 58u8]
}

/// The kind that the store adapter's record of a path gives, if it is a known one.
pub open spec fn record_kind(p: Seq<u8>, is_root: bool) -> Option<NodeKind> {
    if p.len() > 0 && p[0] == 47u8 {
        if starts_with(p, proc_prefix()) {
            Some(NodeKind::Memory)
        } else if is_root {
            Some(NodeKind::Link)
        } else {
            Some(NodeKind::Path)
        }
    } else if starts_with(p, memory_prefix()) || p == lsof_marker() || p == censored_marker() {
        Some(NodeKind::Memory)
    } else if starts_with(p, temp_prefix()) {
        Some(NodeKind::Temporary)
    } else {
        None
    }
}

/// The kind of a path that the store adapter reports, or `None` when it matches no
/// known prefix.
pub fn kind_of_record(path: &[u8], is_root: bool) -> (r: Option<NodeKind>)
    ensures
        r == record_kind(path@, is_root),
{
    let proc: [u8; 6] = [47u8, 112u8, 114u8, 111u8, 99u8, 47u8];
    let memory: [u8; 8] = [123u8, 109u8, 101u8, 109u8, 111u8, 114u8, 121u8, 58u8];
    let lsof: [u8; 6] = [123u8, 108u8, 115u8, 111u8, 102u8, 125u8];
    let censored: [u8; 10] = [
        123u8, 99u8, 101u8, 110u8, 115u8, 111u8, 114u8, 101u8, 100u8, 125u8,
    ];
    let temp: [u8; 6] = [123u8, 116u8, 101u8, 109u8, 112u8, 58u8];
    assert(proc@ =~= proc_prefix());
    assert(memory@ =~= memory_prefix());
    assert(lsof@ =~= lsof_marker());
    assert(censored@ =~= censored_marker());
    assert(temp@ =~= temp_prefix());
    if path.len() > 0 && path[0] == 47u8 {
        if bytes_start_with(path, &proc) {
            Some(NodeKind::Memory)
        } else if is_root {
            Some(NodeKind::Link)
        } else {
            Some(NodeKind::Path)
        }
    } else {
        let is_memory = bytes_start_with(path, &memory);
        let is_lsof = path.len() == 6 && bytes_start_with(path, &lsof);
        let is_censored = path.len() == 10 && bytes_start_with(path, &censored);
        proof {
            if path@.len() == 6 && starts_with(path@, lsof@) {
                assert(path@ =~= path@.subrange(0, 6));
            }
            if path@.len() == 10 && starts_with(path@, censored@) {
                assert(path@ =~= path@.subrange(0, 10));
            }
            if path@ == lsof_marker() {
                assert(path@.subrange(0, 6) =~= lsof@);
            }
            if path@ == censored_marker() {
                assert(path@.subrange(0, 10) =~= censored@);
            }
        }
        if is_memory || is_lsof || is_censored {
            Some(NodeKind::Memory)
        } else if bytes_start_with(path, &temp) {
            Some(NodeKind::Temporary)
        } else {
            None
        }
    }
}

impl DepNode {
    /// Builds the node for a path that the store adapter reports. A path of no known
    /// kind is a fault of the adapter: callers test it with `kind_of_record` first.
    pub fn from_record(path: Vec<u8>, size: u64, is_root: bool) -> (r: DepNode)
        requires
            record_kind(path@, is_root).is_some(),
        ensures
            r.description.kind_of() == record_kind(path@, is_root).unwrap(),
            r.description.payload() == Some(path@),
            r.size == size,
    {
        let description = match kind_of_record(path.as_slice(), is_root) {
            Some(NodeKind::Memory) => NodeDescription::Memory(path),
            Some(NodeKind::Link) => NodeDescription::Link(path),
            Some(NodeKind::Path) => NodeDescription::Path(path),
            _ => NodeDescription::Temporary(path),
        };
        DepNode { description, size }
    }
}

/// A character of the hash part of a store path name.
pub open spec fn is_hash_char(c: u8) -> bool {
    (48 <= c <= 57) || (97 <= c <= 122)
}

/// The index of the last `/` among the first `k` bytes, or -1.
pub open spec fn last_slash(p: Seq<u8>, k: int) -> int
    decreases k,
{
    if k <= 0 {
        -1
    } else if p[k - 1] == 47u8 {
        k - 1
    } else {
        last_slash(p, k - 1)
    }
}

/// The index of the first `-` from `i` on, or the length.
pub open spec fn first_dash(p: Seq<u8>, i: int) -> int
    decreases p.len() - i,
{
    if i >= p.len() {
        p.len() as int
    } else if p[i] == 45u8 {
        i
    } else {
        first_dash(p, i + 1)
    }
}

/// The name of a store path `/<dir>/<hash>-<name>`: `<name>`, where `<hash>` is made
/// of digits and lower-case letters; any other path is its own name.
pub open spec fn store_name(p: Seq<u8>) -> Seq<u8> {
    let l = last_slash(p, p.len() as int);
    let d = first_dash(p, l + 1);
    if p.len() > 0 && p[0] == 47u8 && l >= 1 && d < p.len() && (forall|i: int|
        l + 1 <= i < d ==> #[trigger] is_hash_char(p[i])) {
        p.subrange(d + 1, p.len() as int)
    } else {
        p
    }
}

pub open spec fn dummy_name() -> Seq<u8> {
    seq![123u8, 100u8, 117u8, 109u8, 109u8, 121u8, 125u8]
}

pub open spec fn filtered_out_name() -> Seq<u8> {
    seq![123u8, 102u8, 105u8, 108u8, 116u8, 101u8, 114u8, 101u8, 100u8, 32u8, 111u8, 117u8, 116u8, 125u8]
}

pub open spec fn transient_name() -> Seq<u8> {
    seq![123u8, 116u8, 114u8, 97u8, 110u8, 115u8, 105u8, 101u8, 110u8, 116u8, 125u8]
}

pub open spec fn shared_prefix() -> Seq<u8> {
    seq![115u8, 104u8, 97u8, 114u8, 101u8, 100u8, 58u8]
}

/// The short, human readable name of a node. A link is named by its path here; a
/// richer description of it needs the filesystem.
pub open spec fn name_of(d: NodeDescription) -> Seq<u8> {
    match d {
        NodeDescription::Path(p) => store_name(p@),
        NodeDescription::Link(p) => p@,
        NodeDescription::Memory(p) => p@,
        NodeDescription::Temporary(p) => p@,
        NodeDescription::Dummy => dummy_name(),
        NodeDescription::FilteredOut => filtered_out_name(),
        NodeDescription::Transient => transient_name(),
        NodeDescription::Shared(n) => shared_prefix() + n@,
    }
}

/// The name of the store path `p`, as `store_name` says.
pub fn store_path_name(p: &[u8]) -> (r: Vec<u8>)
    ensures
        r@ == store_name(p@),
{
    let len = p.len();
    // the last slash
    let mut k: usize = len;
    let mut l: Option<usize> = None;
    while k > 0 && l.is_none()
        invariant
            k <= len,
            len == p@.len(),
            l.is_none() ==> last_slash(p@, len as int) == last_slash(p@, k as int),
            l.is_some() ==> last_slash(p@, len as int) == l.unwrap() as int,
            l.is_some() ==> l.unwrap() < len,
        decreases k,
    {
        if p[k - 1] == 47u8 {
            assert(last_slash(p@, k as int) == k - 1);
            l = Some(k - 1);
        }
        k -= 1;
    }
    proof {
        if l.is_none() {
            assert(k == 0);
            assert(last_slash(p@, 0) == -1);
        }
    }
    let ghost ls = last_slash(p@, len as int);
    let start = match l {
        Some(x) => x + 1,
        None => 0,
    };
    if len == 0 || p[0] != 47u8 || start < 2 {
        return vstd::slice::slice_to_vec(p);
    }
    // the first dash after it, with only hash characters before
    let mut i: usize = start;
    while i < len && p[i] != 45u8
        invariant
            start <= i <= len,
            len == p@.len(),
            start == ls + 1,
            first_dash(p@, start as int) == first_dash(p@, i as int),
        decreases len - i,
    {
        i += 1;
    }
    let mut j: usize = start;
    let mut hashy = true;
    while j < i
        invariant
            start <= j <= i <= len,
            len == p@.len(),
            hashy == (forall|x: int| start <= x < j ==> #[trigger] is_hash_char(p@[x])),
        decreases i - j,
    {
        let c = p[j];
        let ghost was = hashy;
        if !((48u8 <= c && c <= 57u8) || (97u8 <= c && c <= 122u8)) {
            hashy = false;
        }
        proof {
            if !was {
                let x = choose|x: int| start <= x < j && !#[trigger] is_hash_char(p@[x]);
                assert(start <= x < j + 1 && !is_hash_char(p@[x]));
            }
            if was && !hashy {
                assert(!is_hash_char(p@[j as int]));
            }
        }
        j += 1;
    }
    if i < len && hashy {
        let mut r: Vec<u8> = Vec::new();
        let mut x: usize = i + 1;
        while x < len
            invariant
                i + 1 <= x <= len,
                len == p@.len(),
                r@ == p@.subrange(i + 1, x as int),
            decreases len - x,
        {
            r.push(p[x]);
            proof {
                assert(p@.subrange(i + 1, x + 1) =~= p@.subrange(i + 1, x as int).push(p@[x as int]));
            }
            x += 1;
        }
        r
    } else {
        vstd::slice::slice_to_vec(p)
    }
}

impl NodeDescription {
    /// A short but human readable name of the node: for a store path, its name
    /// without the hash.
    pub fn name(&self) -> (r: Vec<u8>)
        ensures
            r@ == name_of(*self),
    {
        match self {
            NodeDescription::Path(p) => store_path_name(p.as_slice()),
            NodeDescription::Link(p) => vstd::slice::slice_to_vec(p.as_slice()),
            NodeDescription::Memory(p) => vstd::slice::slice_to_vec(p.as_slice()),
            NodeDescription::Temporary(p) => vstd::slice::slice_to_vec(p.as_slice()),
            NodeDescription::Dummy => {
                let b: [u8; 7] = [123u8, 100u8, 117u8, 109u8, 109u8, 121u8, 125u8];
                assert(b@ =~= dummy_name());
                vstd::slice::slice_to_vec(&b)
            },
            NodeDescription::FilteredOut => {
                let b: [u8; 14] = [
                    123u8, 102u8, 105u8, 108u8, 116u8, 101u8, 114u8, 101u8, 100u8, 32u8, 111u8,
                    117u8, 116u8, 125u8,
                ];
                assert(b@ =~= filtered_out_name());
                vstd::slice::slice_to_vec(&b)
            },
            NodeDescription::Transient => {
                let b: [u8; 11] = [
                    123u8, 116u8, 114u8, 97u8, 110u8, 115u8, 105u8, 101u8, 110u8, 116u8, 125u8,
                ];
                assert(b@ =~= transient_name());
                vstd::slice::slice_to_vec(&b)
            },
            NodeDescription::Shared(n) => {
                let b: [u8; 7] = [115u8, 104u8, 97u8, 114u8, 101u8, 100u8, 58u8];
                assert(b@ =~= shared_prefix());
                let mut r = vstd::slice::slice_to_vec(&b);
                let mut i: usize = 0;
                while i < n.len()
                    invariant
                        i <= n@.len(),
                        r@ == shared_prefix() + n@.subrange(0, i as int),
                    decreases n@.len() - i,
                {
                    r.push(n[i]);
                    proof {
                        assert(shared_prefix() + n@.subrange(0, i + 1) =~= (shared_prefix()
                            + n@.subrange(0, i as int)).push(n@[i as int]));
                    }
                    i += 1;
                }
                proof {
                    assert(n@.subrange(0, n@.len() as int) =~= n@);
                }
                r
            },
        }
    }
}

impl DepNode {
    pub fn name(&self) -> (r: Vec<u8>)
        ensures
            r@ == name_of(self.description),
    {
        self.description.name()
    }
}

} // verus!
