use vstd::prelude::*;

verus! {

use vstd::string::StringSliceAdditionalSpecFns;
use vstd::string::StrSliceExecFns;

/// Address of one object in a document's arena: object number and
/// generation number.  Fresh identifiers are minted from the number alone;
/// the generation is carried through unchanged.
#[derive(Clone, Copy, PartialEq, Eq, Structural, Debug)]
pub struct ObjectId {
    pub num: u32,
    pub gen: u16,
}

/// How a string object is written when serialised; carried through untouched.
#[derive(Clone, Copy, PartialEq, Eq, Structural, Debug)]
pub enum StrFormat {
    Literal,
    Hexadecimal,
}

/// One PDF object: the tagged union whose `Reference` variant forms the
/// edges of the document graph.  A `Real` carries the raw bits of a 32-bit
/// float, which this engine never interprets, only copies.  A `Stream` is a
/// dictionary plus an opaque byte payload.
#[derive(Debug, PartialEq, Eq)]
pub enum Object {
    Null,
    Boolean(bool),
    Integer(i64),
    Real(u32),
    Str(Vec<u8>, StrFormat),
    Name(Vec<u8>),
    Array(Vec<Object>),
    Dictionary(Vec<(Vec<u8>, Object)>),
    Stream(Vec<(Vec<u8>, Object)>, Vec<u8>),
    Reference(ObjectId),
}

/// Relies on `String::push` from std: it appends exactly the given
/// character to the end of the string.
pub assume_specification[ String::push ](s: &mut String, c: char)
    ensures
        final(s)@ == old(s)@.push(c),
;

/// The bytes of an ASCII string literal, byte for byte.
pub open spec fn ascii_view(s: Seq<char>) -> Seq<u8> {
    Seq::new(s.len(), |i: int| s[i] as u8)
}

/// Turns an ASCII string into its byte sequence.
pub fn str_bytes(s: &str) -> (r: Vec<u8>)
    requires
        vstd::string::is_ascii(s),
    ensures
        r@ == ascii_view(s@),
{
    proof {
        vstd::string::is_ascii_spec_bytes(s);
        assert(s.spec_bytes() =~= ascii_view(s@));
    }
    s.as_bytes_vec()
}

/// Copies a byte vector.
pub fn clone_bytes(b: &Vec<u8>) -> (r: Vec<u8>)
    ensures
        r@ == b@,
{
    let r = b.clone();
    proof {
        assert(r@ =~= b@);
    }
    r
}

/// Whether two byte slices hold the same bytes.
pub fn bytes_eq(a: &[u8], b: &[u8]) -> (r: bool)
    ensures
        r == (a@ == b@),
{
    if a.len() != b.len() {
        return false;
    }
    let mut i: usize = 0;
    while i < a.len()
        invariant
            0 <= i <= a@.len(),
            a@.len() == b@.len(),
            forall|j: int| 0 <= j < i ==> a@[j] == b@[j],
        decreases a@.len() - i,
    {
        if a[i] != b[i] {
            return false;
        }
        i = i + 1;
    }
    proof {
        assert(a@ =~= b@);
    }
    true
}

/// First match for `id` in an identifier translation table.
pub open spec fn remap_of(table: Seq<(ObjectId, ObjectId)>, id: ObjectId) -> Option<ObjectId>
    decreases table.len(),
{
    if table.len() == 0 {
        None
    } else if table[0].0 == id {
        Some(table[0].1)
    } else {
        remap_of(table.drop_first(), id)
    }
}

/// The identifier that a reference to `id` is rewritten to: its entry in the
/// table when there is one, otherwise `id` itself.
pub open spec fn mapped_id(table: Seq<(ObjectId, ObjectId)>, id: ObjectId) -> ObjectId {
    match remap_of(table, id) {
        Some(n) => n,
        None => id,
    }
}

/// Looks `id` up in a translation table (first match wins).
pub fn apply_remap(table: &Vec<(ObjectId, ObjectId)>, id: ObjectId) -> (r: ObjectId)
    ensures
        r == mapped_id(table@, id),
{
    let mut i: usize = 0;
    proof {
        assert(table@.skip(0) =~= table@);
    }
    while i < table.len()
        invariant
            0 <= i <= table@.len(),
            remap_of(table@, id) == remap_of(table@.skip(i as int), id),
        decreases table@.len() - i,
    {
        proof {
            assert(table@.skip(i as int).drop_first() =~= table@.skip(i as int + 1));
        }
        if table[i].0 == id {
            assert(table@.skip(i as int)[0] == table@[i as int]);
            return table[i].1;
        }
        i = i + 1;
    }
    proof {
        assert(table@.skip(table@.len() as int).len() == 0);
    }
    id
}

/// Relates an object to its copy under an identifier translation: every
/// `Reference` inside (walking array elements, dictionary values and stream
/// dictionary values) is replaced by its `mapped_id`, and everything else is
/// kept, byte for byte.
pub open spec fn rewritten(old: Object, new: Object, table: Seq<(ObjectId, ObjectId)>) -> bool
    decreases old,
{
    match old {
        Object::Null => new == Object::Null,
        Object::Boolean(b) => new == Object::Boolean(b),
        Object::Integer(n) => new == Object::Integer(n),
        Object::Real(x) => new == Object::Real(x),
        Object::Str(b, f) => new matches Object::Str(b2, f2) && b2@ == b@ && f2 == f,
        Object::Name(b) => new matches Object::Name(b2) && b2@ == b@,
        Object::Array(v) => new matches Object::Array(w) && w@.len() == v@.len()
            && (forall|i: int| 0 <= i < v@.len() ==> rewritten(v@[i], #[trigger] w@[i], table)),
        Object::Dictionary(d) => new matches Object::Dictionary(e) && e@.len() == d@.len()
            && (forall|i: int|
                0 <= i < d@.len() ==> (#[trigger] e@[i]).0@ == d@[i].0@ && rewritten(
                    d@[i].1,
                    e@[i].1,
                    table,
                )),
        Object::Stream(d, c) => new matches Object::Stream(e, c2) && c2@ == c@ && e@.len()
            == d@.len() && (forall|i: int|
            0 <= i < d@.len() ==> (#[trigger] e@[i]).0@ == d@[i].0@ && rewritten(
                d@[i].1,
                e@[i].1,
                table,
            )),
        Object::Reference(id) => new == Object::Reference(mapped_id(table, id)),
    }
}

/// Returns a copy of `o` with every internal `Reference` translated through
/// the table; identifiers absent from the table are left unchanged.
pub fn rewrite_refs(o: &Object, table: &Vec<(ObjectId, ObjectId)>) -> (r: Object)
    ensures
        rewritten(*o, r, table@),
    decreases *o,
{
    match o {
        Object::Null => Object::Null,
        Object::Boolean(b) => Object::Boolean(*b),
        Object::Integer(n) => Object::Integer(*n),
        Object::Real(x) => Object::Real(*x),
        Object::Str(b, f) => Object::Str(clone_bytes(b), *f),
        Object::Name(b) => Object::Name(clone_bytes(b)),
        Object::Array(v) => {
            proof {
                assert(*o == Object::Array(*v));
                assert(decreases_to!(Object::Array(*v) => *v));
            }
            Object::Array(rewrite_arr_elems(v, table))
        },
        Object::Dictionary(d) => {
            proof {
                assert(*o == Object::Dictionary(*d));
                assert(decreases_to!(Object::Dictionary(*d) => *d));
            }
            Object::Dictionary(rewrite_dict_entries(d, table))
        },
        Object::Stream(d, c) => {
            proof {
                assert(*o == Object::Stream(*d, *c));
                assert(decreases_to!(Object::Stream(*d, *c) => *d));
            }
            Object::Stream(rewrite_dict_entries(d, table), clone_bytes(c))
        },
        Object::Reference(id) => Object::Reference(apply_remap(table, *id)),
    }
}

/// Rewrites every element of an array through the table, in order.
fn rewrite_arr_elems(v: &Vec<Object>, table: &Vec<(ObjectId, ObjectId)>) -> (w: Vec<Object>)
    ensures
        w@.len() == v@.len(),
        forall|i: int| 0 <= i < v@.len() ==> rewritten(v@[i], #[trigger] w@[i], table@),
    decreases *v,
{
    let mut w: Vec<Object> = Vec::new();
    let mut i: usize = 0;
    while i < v.len()
        invariant
            0 <= i <= v@.len(),
            w@.len() == i,
            forall|j: int| 0 <= j < i ==> rewritten(v@[j], #[trigger] w@[j], table@),
        decreases v@.len() - i,
    {
        proof {
            assert(decreases_to!(*v => v[i as int]));
        }
        let e = rewrite_refs(&v[i], table);
        w.push(e);
        i = i + 1;
    }
    w
}

/// Rewrites every value of a dictionary through the table, keeping keys and
/// their order.
fn rewrite_dict_entries(d: &Vec<(Vec<u8>, Object)>, table: &Vec<(ObjectId, ObjectId)>) -> (e: Vec<
    (Vec<u8>, Object),
>)
    ensures
        e@.len() == d@.len(),
        forall|i: int|
            0 <= i < d@.len() ==> (#[trigger] e@[i]).0@ == d@[i].0@ && rewritten(
                d@[i].1,
                e@[i].1,
                table@,
            ),
    decreases *d,
{
    let mut e: Vec<(Vec<u8>, Object)> = Vec::new();
    let mut i: usize = 0;
    while i < d.len()
        invariant
            0 <= i <= d@.len(),
            e@.len() == i,
            forall|j: int|
                0 <= j < i ==> (#[trigger] e@[j]).0@ == d@[j].0@ && rewritten(
                    d@[j].1,
                    e@[j].1,
                    table@,
                ),
        decreases d@.len() - i,
    {
        proof {
            assert(decreases_to!(*d => d[i as int]));
            assert(decreases_to!(d[i as int] => d[i as int].1));
        }
        let k = clone_bytes(&d[i].0);
        let v = rewrite_refs(&d[i].1, table);
        e.push((k, v));
        i = i + 1;
    }
    e
}

} // verus!
