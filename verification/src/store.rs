//! The store interface: static store parameters, the read contract a
//! backend exposes, and alias-name helpers.
use vstd::prelude::*;

use crate::cid::{Cid, CidV};
use crate::error::{BlockError, StoreError};
use crate::ipld::{Ipld, IpldV};
use crate::mem::MemStore;

verus! {

/// The decimal digit character of one digit value.
pub open spec fn digit_char(d: int) -> char {
    if d == 0 {
        '0'
    } else if d == 1 {
        '1'
    } else if d == 2 {
        '2'
    } else if d == 3 {
        '3'
    } else if d == 4 {
        '4'
    } else if d == 5 {
        '5'
    } else if d == 6 {
        '6'
    } else if d == 7 {
        '7'
    } else if d == 8 {
        '8'
    } else {
        '9'
    }
}

/// The decimal rendering of a number, most significant digit first.
pub open spec fn dec_chars(n: nat) -> Seq<char>
    decreases n,
{
    if n < 10 {
        seq![digit_char(n as int)]
    } else {
        dec_chars(n / 10).push(digit_char((n % 10) as int))
    }
}

/// Appends the decimal rendering of a number to a string.
fn push_decimal(out: &mut String, n: u64)
    ensures
        final(out)@ == old(out)@ + dec_chars(n as nat),
    decreases n,
{
    if n >= 10 {
        push_decimal(out, n / 10);
    }
    let d = n % 10;
    proof {
        reveal_strlit("0");
        reveal_strlit("1");
        reveal_strlit("2");
        reveal_strlit("3");
        reveal_strlit("4");
        reveal_strlit("5");
        reveal_strlit("6");
        reveal_strlit("7");
        reveal_strlit("8");
        reveal_strlit("9");
    }
    <String as vstd::string::StringExecFns>::append(
        out,
        if d == 0 {
            "0"
        } else if d == 1 {
            "1"
        } else if d == 2 {
            "2"
        } else if d == 3 {
            "3"
        } else if d == 4 {
            "4"
        } else if d == 5 {
            "5"
        } else if d == 6 {
            "6"
        } else if d == 7 {
            "7"
        } else if d == 8 {
            "8"
        } else {
            "9"
        },
    );
    assert(final(out)@ =~= old(out)@ + dec_chars(n as nat));
}

/// Builds a numbered alias name: the given name, a double colon, and the
/// number in decimal.
pub fn dyn_alias(alias: &str, id: u64) -> (r: String)
    ensures
        r@ == alias@ + seq![':', ':'] + dec_chars(id as nat),
{
    let mut out = <String as vstd::string::StringExecFns>::from_str(alias);
    proof {
        reveal_strlit("::");
    }
    <String as vstd::string::StringExecFns>::append(&mut out, "::");
    push_decimal(&mut out, id);
    assert(out@ =~= alias@ + seq![':', ':'] + dec_chars(id as nat));
    out
}

/// The static parameters of a store: the largest block it accepts and the
/// codec ids its registry recognizes.
pub trait StoreParams {
    /// The largest number of bytes a block may hold.
    spec fn spec_max_block_size() -> usize;

    /// Whether the registry recognizes a codec id.
    spec fn spec_supports_codec(codec: u64) -> bool;

    /// The largest number of bytes a block may hold.
    fn max_block_size() -> (r: usize)
        ensures
            r == Self::spec_max_block_size(),
    ;

    /// Decides whether the registry recognizes a codec id.
    fn supports_codec(codec: u64) -> (r: bool)
        ensures
            r == Self::spec_supports_codec(codec),
    ;
}

/// The default parameters: no size bound beyond the machine's, and the
/// raw and canonical CBOR codecs.
pub struct DefaultStoreParams;

impl StoreParams for DefaultStoreParams {
    open spec fn spec_max_block_size() -> usize {
        usize::MAX
    }

    open spec fn spec_supports_codec(codec: u64) -> bool {
        codec == crate::cid::RAW || codec == crate::cid::DAG_CBOR
    }

    fn max_block_size() -> (r: usize) {
        usize::MAX
    }

    fn supports_codec(codec: u64) -> (r: bool) {
        codec == crate::cid::RAW || codec == crate::cid::DAG_CBOR
    }
}

/// The read contract of a store backend: a well-formedness condition, a
/// model of the stored blocks and alias bindings, and reads against that
/// model.
pub trait Store: Sized {
    /// The backend's well-formedness.
    spec fn st_wf(&self) -> bool;

    /// The bytes stored under an identifier.
    spec fn st_block_of(&self, c: CidV) -> Option<Seq<u8>>;

    /// The target an alias name is bound to.
    spec fn st_alias_of(&self, name: Seq<u8>) -> Option<CidV>;

    /// Returns the stored bytes of an identifier, or reports that no
    /// block is stored under it.
    fn get(&self, cid: &Cid) -> (r: Result<Vec<u8>, StoreError>)
        requires
            self.st_wf(),
        ensures
            match r {
                Ok(d) => self.st_block_of(cid@) == Some(d@),
                Err(e) => self.st_block_of(cid@) is None && (e
                    matches StoreError::BlockNotFound(c2) && c2@ == cid@),
            },
    ;

    /// Returns the identifier a name is bound to, if any.
    fn resolve(&self, name: &Vec<u8>) -> (r: Option<Cid>)
        requires
            self.st_wf(),
        ensures
            match r {
                Some(c) => self.st_alias_of(name@) == Some(c@),
                None => self.st_alias_of(name@) is None,
            },
    ;
}

impl Store for MemStore {
    open spec fn st_wf(&self) -> bool {
        self.wf()
    }

    open spec fn st_block_of(&self, c: CidV) -> Option<Seq<u8>> {
        self.block_of(c)
    }

    open spec fn st_alias_of(&self, name: Seq<u8>) -> Option<CidV> {
        self.alias_of(name)
    }

    fn get(&self, cid: &Cid) -> (r: Result<Vec<u8>, StoreError>) {
        MemStore::get(self, cid)
    }

    fn resolve(&self, name: &Vec<u8>) -> (r: Option<Cid>) {
        MemStore::resolve(self, name)
    }
}


/// One step of a path: a map key or a list position.
pub enum PathSegment {
    /// Index a map by this key.
    Key(String),
    /// Index a list at this position.
    Index(usize),
}

/// The value one segment selects inside a value, if any.
pub open spec fn seg_select(v: IpldV, seg: PathSegment) -> Option<IpldV> {
    match seg {
        PathSegment::Key(k) => match v {
            IpldV::Dict(es) => crate::ipld::dict_first(es, k@),
            _ => None,
        },
        PathSegment::Index(ix) => match v {
            IpldV::List(items) => if (ix as int) < items.len() {
                Some(items[ix as int])
            } else {
                None
            },
            _ => None,
        },
    }
}

/// Resolves the remaining segments against a value: each segment selects
/// inside the current value, and a selected link is reloaded from the
/// store before the next segment.
pub open spec fn resolve_path(
    store: crate::mem::MemStore,
    v: IpldV,
    segs: Seq<PathSegment>,
    i: int,
) -> Option<IpldV>
    decreases segs.len() - i,
{
    if i < 0 || i >= segs.len() {
        Some(v)
    } else {
        match seg_select(v, segs[i]) {
            None => None,
            Some(cv) => match cv {
                IpldV::Link(c) => match store.block_of(c) {
                    Some(d) => match crate::block::ipld_of(c, d) {
                        Some(w) => resolve_path(store, w, segs, i + 1),
                        None => None,
                    },
                    None => None,
                },
                _ => resolve_path(store, cv, segs, i + 1),
            },
        }
    }
}

/// What a path query yields: the root block's decoded value walked along
/// the segments.
pub open spec fn query_spec(
    store: crate::mem::MemStore,
    root: CidV,
    segs: Seq<PathSegment>,
) -> Option<IpldV> {
    match store.block_of(root) {
        Some(d) => match crate::block::ipld_of(root, d) {
            Some(v) => resolve_path(store, v, segs, 0),
            None => None,
        },
        None => None,
    }
}

/// Resolves a path: loads the root block, decodes it, and walks the
/// segments, reloading across links. Returns an error exactly when the
/// path resolves to nothing.
#[verifier::loop_isolation(false)]
pub fn query(store: &MemStore, root: &Cid, path: &Vec<PathSegment>) -> (r: Result<
    Ipld,
    StoreError,
>)
    requires
        store.wf(),
    ensures
        match r {
            Ok(v) => query_spec(*store, root@, path@) == Some(v@),
            Err(_) => query_spec(*store, root@, path@) is None,
        },
{
    let data = match store.get(root) {
        Ok(d) => d,
        Err(e) => {
            return Err(e);
        },
    };
    let mut cur: Ipld = match crate::block::decode_ipld(root, &data) {
        Ok(v) => v,
        Err(e) => {
            return Err(StoreError::Block(e));
        },
    };
    let n: usize = path.len();
    let mut i: usize = 0;
    while i < n
        invariant
            n == path@.len(),
            i <= n,
            query_spec(*store, root@, path@) == resolve_path(*store, cur@, path@, i as int),
        decreases n - i,
    {
        let selected: Ipld = match &path[i] {
            PathSegment::Key(k) => {
                match cur.lookup_key(k) {
                    Ok(child) => child.clone(),
                    Err(_) => {
                        return Err(StoreError::Block(BlockError::CodecError(
                            crate::error::CodecFault::Malformed,
                        )));
                    },
                }
            },
            PathSegment::Index(ix) => {
                match cur.lookup_index(*ix) {
                    Ok(child) => child.clone(),
                    Err(_) => {
                        return Err(StoreError::Block(BlockError::CodecError(
                            crate::error::CodecFault::Malformed,
                        )));
                    },
                }
            },
        };
        proof {
            assert(seg_select(cur@, path@[i as int]) == Some(selected@));
        }
        let next: Ipld = match selected {
            Ipld::Link(c) => {
                let d = match store.get(&c) {
                    Ok(d) => d,
                    Err(e) => {
                        return Err(e);
                    },
                };
                match crate::block::decode_ipld(&c, &d) {
                    Ok(w) => w,
                    Err(e) => {
                        return Err(StoreError::Block(e));
                    },
                }
            },
            other => other,
        };
        cur = next;
        i += 1;
    }
    Ok(cur)
}

} // verus!
