//! The value model of linked data: a tagged union of primitives,
//! containers and links.
use vstd::prelude::*;

use crate::cid::{Cid, CidV};
use crate::error::IpldError;

verus! {

/// Mathematical model of a structured value.
pub enum IpldV {
    /// Absence of a value.
    Null,
    /// A boolean.
    Bool(bool),
    /// An integer.
    Integer(int),
    /// A text string.
    Str(Seq<char>),
    /// A byte string.
    Bytes(Seq<u8>),
    /// A list of values.
    List(Seq<IpldV>),
    /// A map from string keys to values, as a sequence of entries.
    Dict(Seq<(Seq<char>, IpldV)>),
    /// A link to another block.
    Link(CidV),
}

/// A structured value decoded from a block. A map holds its entries as a
/// vector of pairs kept sorted by key; the codecs enforce that order.
#[derive(Debug, PartialEq)]
pub enum Ipld {
    /// Absence of a value.
    Null,
    /// A boolean.
    Bool(bool),
    /// An integer.
    Integer(i128),
    /// A text string.
    String(String),
    /// A byte string.
    Bytes(Vec<u8>),
    /// A list of values.
    List(Vec<Ipld>),
    /// A map from string keys to values, entries sorted by key.
    Dict(Vec<(String, Ipld)>),
    /// A link to another block.
    Link(Cid),
}

impl View for Ipld {
    type V = IpldV;

    open spec fn view(&self) -> IpldV
        decreases self,
    {
        match self {
            Ipld::Null => IpldV::Null,
            Ipld::Bool(b) => IpldV::Bool(*b),
            Ipld::Integer(i) => IpldV::Integer(*i as int),
            Ipld::String(s) => IpldV::Str(s@),
            Ipld::Bytes(b) => IpldV::Bytes(b@),
            Ipld::List(items) => IpldV::List(view_seq(items@)),
            Ipld::Dict(entries) => IpldV::Dict(view_entries(entries@)),
            Ipld::Link(cid) => IpldV::Link(cid@),
        }
    }
}

/// The models of the values of a sequence, in order.
pub open spec fn view_seq(s: Seq<Ipld>) -> Seq<IpldV>
    decreases s,
{
    if s.len() == 0 {
        Seq::empty()
    } else {
        view_seq(s.drop_last()).push(s.last()@)
    }
}

/// The models of the entries of a map, in order.
pub open spec fn view_entries(s: Seq<(String, Ipld)>) -> Seq<(Seq<char>, IpldV)>
    decreases s,
{
    if s.len() == 0 {
        Seq::empty()
    } else {
        view_entries(s.drop_last()).push((s.last().0@, s.last().1@))
    }
}

/// A sequence of values is modelled element by element.
pub proof fn lemma_view_seq(s: Seq<Ipld>)
    ensures
        view_seq(s).len() == s.len(),
        forall|i: int| 0 <= i < s.len() ==> #[trigger] view_seq(s)[i] == s[i]@,
    decreases s,
{
    if s.len() == 0 {
        assert(view_seq(s) == Seq::<IpldV>::empty());
    } else {
        lemma_view_seq(s.drop_last());
        assert(view_seq(s) == view_seq(s.drop_last()).push(s.last()@));
        assert forall|i: int| 0 <= i < s.len() implies #[trigger] view_seq(s)[i] == s[i]@ by {
            if i < s.len() - 1 {
                assert(s.drop_last()[i] == s[i]);
                assert(view_seq(s)[i] == view_seq(s.drop_last())[i]);
            }
        }
    }
}

/// A sequence of map entries is modelled entry by entry.
pub proof fn lemma_view_entries(s: Seq<(String, Ipld)>)
    ensures
        view_entries(s).len() == s.len(),
        forall|i: int| 0 <= i < s.len() ==> (#[trigger] view_entries(s)[i]).0 == s[i].0@
            && view_entries(s)[i].1 == s[i].1@,
    decreases s,
{
    if s.len() == 0 {
        assert(view_entries(s) == Seq::<(Seq<char>, IpldV)>::empty());
    } else {
        lemma_view_entries(s.drop_last());
        assert(view_entries(s) == view_entries(s.drop_last()).push((s.last().0@, s.last().1@)));
        assert forall|i: int| 0 <= i < s.len() implies (#[trigger] view_entries(s)[i]).0
            == s[i].0@ && view_entries(s)[i].1 == s[i].1@ by {
            if i < s.len() - 1 {
                assert(s.drop_last()[i] == s[i]);
                assert(view_entries(s)[i] == view_entries(s.drop_last())[i]);
            }
        }
    }
}

impl Clone for Ipld {
    /// Clones a value; the copy models the same value.
    #[verifier::loop_isolation(false)]
    fn clone(&self) -> (r: Self)
        ensures
            r@ == self@,
        decreases self,
    {
        match self {
            Ipld::Null => Ipld::Null,
            Ipld::Bool(b) => Ipld::Bool(*b),
            Ipld::Integer(i) => Ipld::Integer(*i),
            Ipld::String(s) => Ipld::String(s.clone()),
            Ipld::Bytes(b) => Ipld::Bytes(b.clone()),
            Ipld::List(items) => {
                let n: usize = items.len();
                let mut out: Vec<Ipld> = Vec::new();
                let mut i: usize = 0;
                while i < n
                    invariant
                        n == items@.len(),
                        i <= n,
                        out@.len() == i,
                        forall|j: int| 0 <= j < i ==> out@[j]@ == items@[j]@,
                    decreases n - i,
                {
                    proof {
                        assert(decreases_to!(*self => *items));
                        assert(decreases_to!(*items => items@));
                        assert(decreases_to!(items@ => items@[i as int]));
                    }
                    out.push(items[i].clone());
                    i += 1;
                }
                let r = Ipld::List(out);
                proof {
                    lemma_view_seq(out@);
                    lemma_view_seq(items@);
                    assert forall|k: int| 0 <= k < n implies view_seq(out@)[k] == view_seq(
                        items@,
                    )[k] by {
                        assert(out@[k]@ == items@[k]@);
                    }
                    assert(view_seq(out@) =~= view_seq(items@));
                }
                r
            },
            Ipld::Dict(entries) => {
                let n: usize = entries.len();
                let mut out: Vec<(String, Ipld)> = Vec::new();
                let mut i: usize = 0;
                while i < n
                    invariant
                        n == entries@.len(),
                        i <= n,
                        out@.len() == i,
                        forall|j: int| 0 <= j < i ==> out@[j].0@ == entries@[j].0@
                            && out@[j].1@ == entries@[j].1@,
                    decreases n - i,
                {
                    proof {
                        assert(decreases_to!(*self => *entries));
                        assert(decreases_to!(*entries => entries@));
                        assert(decreases_to!(entries@ => entries@[i as int]));
                        assert(decreases_to!(entries@[i as int] => entries@[i as int].1));
                    }
                    out.push((entries[i].0.clone(), entries[i].1.clone()));
                    i += 1;
                }
                let r = Ipld::Dict(out);
                proof {
                    lemma_view_entries(out@);
                    lemma_view_entries(entries@);
                    assert forall|k: int| 0 <= k < n implies view_entries(out@)[k] == view_entries(
                        entries@,
                    )[k] by {
                        assert(out@[k].0@ == entries@[k].0@ && out@[k].1@ == entries@[k].1@);
                    }
                    assert(view_entries(out@) =~= view_entries(entries@));
                }
                r
            },
            Ipld::Link(cid) => Ipld::Link(cid.clone()),
        }
    }
}

/// The set of links appearing anywhere in a value.
pub open spec fn links_of(v: IpldV) -> Set<CidV>
    decreases v,
{
    match v {
        IpldV::Link(c) => Set::empty().insert(c),
        IpldV::List(items) => links_of_seq(items),
        IpldV::Dict(entries) => links_of_entries(entries),
        _ => Set::empty(),
    }
}

/// The set of links appearing anywhere in a sequence of values.
pub open spec fn links_of_seq(s: Seq<IpldV>) -> Set<CidV>
    decreases s,
{
    if s.len() == 0 {
        Set::empty()
    } else {
        links_of_seq(s.drop_last()).union(links_of(s.last()))
    }
}

/// The set of links appearing anywhere in the values of a map's entries.
pub open spec fn links_of_entries(s: Seq<(Seq<char>, IpldV)>) -> Set<CidV>
    decreases s,
{
    if s.len() == 0 {
        Set::empty()
    } else {
        links_of_entries(s.drop_last()).union(links_of(s.last().1))
    }
}

/// Appending a value appends its model.
pub proof fn lemma_view_seq_push(s: Seq<Ipld>, x: Ipld)
    ensures
        view_seq(s.push(x)) == view_seq(s).push(x@),
{
    assert(s.push(x).drop_last() =~= s);
    assert(s.push(x).last() == x);
}

/// Appending an entry appends its model.
pub proof fn lemma_view_entries_push(s: Seq<(String, Ipld)>, k: String, x: Ipld)
    ensures
        view_entries(s.push((k, x))) == view_entries(s).push((k@, x@)),
{
    assert(s.push((k, x)).drop_last() =~= s);
    assert(s.push((k, x)).last() == (k, x));
}

/// The set of identifiers a vector of identifiers holds.
pub open spec fn cid_set(s: Seq<Cid>) -> Set<CidV> {
    Set::new(|cv: CidV| exists|i: int| 0 <= i < s.len() && s[i]@ == cv)
}

/// Whether a vector of identifiers holds no identifier twice.
pub open spec fn cids_unique(s: Seq<Cid>) -> bool {
    forall|i: int, j: int| 0 <= i < j < s.len() ==> s[i]@ != s[j]@
}

/// Decides whether a vector of identifiers holds the given one.
pub fn contains_cid(v: &Vec<Cid>, c: &Cid) -> (r: bool)
    ensures
        r == cid_set(v@).contains(c@),
{
    let n: usize = v.len();
    let mut i: usize = 0;
    while i < n
        invariant
            n == v@.len(),
            i <= n,
            forall|j: int| 0 <= j < i ==> v@[j]@ != c@,
        decreases n - i,
    {
        if v[i].equals(c) {
            assert(cid_set(v@).contains(c@));
            return true;
        }
        i += 1;
    }
    assert(!cid_set(v@).contains(c@));
    false
}

/// The value of the first entry bound to `key`, searching from the front.
pub open spec fn dict_first(es: Seq<(Seq<char>, IpldV)>, key: Seq<char>) -> Option<IpldV>
    decreases es.len(),
{
    if es.len() == 0 {
        None
    } else if es[0].0 == key {
        Some(es[0].1)
    } else {
        dict_first(es.drop_first(), key)
    }
}

/// The first match is the entry after a prefix of other keys.
pub proof fn lemma_dict_first_at(es: Seq<(Seq<char>, IpldV)>, key: Seq<char>, i: int)
    requires
        0 <= i < es.len(),
        es[i].0 == key,
        forall|j: int| 0 <= j < i ==> (#[trigger] es[j]).0 != key,
    ensures
        dict_first(es, key) == Some(es[i].1),
    decreases i,
{
    if i > 0 {
        lemma_dict_first_at(es.drop_first(), key, i - 1);
        assert(es.drop_first()[i - 1] == es[i]);
        assert forall|j: int| 0 <= j < i - 1 implies (#[trigger] es.drop_first()[j]).0 != key by {
            assert(es.drop_first()[j] == es[j + 1]);
        }
    }
}

/// A key bound at no entry has no first match.
pub proof fn lemma_dict_first_absent(es: Seq<(Seq<char>, IpldV)>, key: Seq<char>)
    requires
        forall|j: int| 0 <= j < es.len() ==> (#[trigger] es[j]).0 != key,
    ensures
        dict_first(es, key) is None,
    decreases es.len(),
{
    if es.len() > 0 {
        assert forall|j: int|
            0 <= j < es.drop_first().len() implies (#[trigger] es.drop_first()[j]).0 != key by {
            assert(es.drop_first()[j] == es[j + 1]);
        }
        lemma_dict_first_absent(es.drop_first(), key);
    }
}

/// Whether the map value `v` holds `child` under `key` at entry `i`.
pub open spec fn dict_entry_at(v: IpldV, i: int, key: Seq<char>, child: IpldV) -> bool {
    v matches IpldV::Dict(es) && 0 <= i < es.len() && es[i].0 == key && es[i].1 == child
}

/// Whether the map value `v` holds an entry under `key`.
pub open spec fn dict_has_key(v: IpldV, key: Seq<char>) -> bool {
    v matches IpldV::Dict(es) && exists|i: int| 0 <= i < es.len() && (#[trigger] es[i].0) == key
}

impl Ipld {
    /// Looks a key up in a map value.
    #[verifier::loop_isolation(false)]
    pub fn lookup_key<'a>(&'a self, key: &String) -> (r: Result<&'a Ipld, IpldError>)
        ensures
            match r {
                Ok(child) => (exists|i: int| dict_entry_at(self@, i, key@, child@)) && (self@
                    matches IpldV::Dict(es) && dict_first(es, key@) == Some(child@)),
                Err(e) => {
                    &&& !dict_has_key(self@, key@)
                    &&& (self@ matches IpldV::Dict(es) ==> dict_first(es, key@) is None)
                    &&& e == (if self@ matches IpldV::Dict(_) {
                        IpldError::KeyNotFound
                    } else {
                        IpldError::NotMap
                    })
                },
            },
    {
        match self {
            Ipld::Dict(entries) => {
                let n: usize = entries.len();
                let mut i: usize = 0;
                while i < n
                    invariant
                        n == entries@.len(),
                        i <= n,
                        forall|j: int| 0 <= j < i ==> entries@[j].0@ != key@,
                    decreases n - i,
                {
                    if entries[i].0.eq(key) {
                        let child: &Ipld = &entries[i].1;
                        proof {
                            lemma_view_entries(entries@);
                            assert(dict_entry_at(self@, i as int, key@, child@));
                            let es = view_entries(entries@);
                            assert forall|j: int| 0 <= j < i implies (#[trigger] es[j]).0 != key@
                                by {
                                assert(es[j].0 == entries@[j].0@);
                            }
                            lemma_dict_first_at(es, key@, i as int);
                        }
                        return Ok(child);
                    }
                    i += 1;
                }
                proof {
                    lemma_view_entries(entries@);
                    assert forall|j: int| 0 <= j < view_entries(entries@).len() implies (
                    #[trigger] view_entries(entries@)[j].0) != key@ by {
                        assert(entries@[j].0@ != key@);
                    }
                    assert(!dict_has_key(self@, key@));
                    lemma_dict_first_absent(view_entries(entries@), key@);
                }
                Err(IpldError::KeyNotFound)
            },
            _ => Err(IpldError::NotMap),
        }
    }

    /// Looks an index up in a list value.
    pub fn lookup_index<'a>(&'a self, index: usize) -> (r: Result<&'a Ipld, IpldError>)
        ensures
            match r {
                Ok(child) => self@ matches IpldV::List(items) && index < items.len()
                    && items[index as int] == child@,
                Err(e) => {
                    &&& !(self@ matches IpldV::List(items) && index < items.len())
                    &&& e == (if self@ matches IpldV::List(_) {
                        IpldError::IndexNotFound
                    } else {
                        IpldError::NotList
                    })
                },
            },
    {
        match self {
            Ipld::List(items) => {
                proof {
                    lemma_view_seq(items@);
                }
                if index < items.len() {
                    Ok(&items[index])
                } else {
                    Err(IpldError::IndexNotFound)
                }
            },
            _ => Err(IpldError::NotList),
        }
    }
}

} // verus!
