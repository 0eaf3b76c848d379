//! Numbered PDF objects in a byte stream, and where each one starts.

use vstd::prelude::*;

use crate::bytes::{decimal, text_bytes};

verus! {

/// The line that opens object number `id`: `id 0 obj`.
pub open spec fn obj_header(id: nat) -> Seq<u8> {
    decimal(id) + text_bytes(" 0 obj\n"@)
}

/// A piece of text that is not empty takes at least one byte.
pub proof fn lemma_text_bytes_nonempty(s: Seq<char>)
    requires
        s.len() >= 1,
    ensures
        text_bytes(s).len() >= 1,
{
    reveal(text_bytes);
}

/// An object takes at least two bytes: its number and what follows it.
pub proof fn lemma_object_bytes_len(id: nat, body: Seq<u8>)
    ensures
        object_bytes(id, body).len() >= 2,
{
    reveal_strlit(" 0 obj\n");
    lemma_text_bytes_nonempty(" 0 obj\n"@);
}

/// Object number `id` with content `body`, closed by `endobj`.
pub open spec fn object_bytes(id: nat, body: Seq<u8>) -> Seq<u8> {
    obj_header(id) + body + text_bytes("endobj\n"@)
}

/// Objects with consecutive numbers from `first`, one for each body.
pub open spec fn objects_bytes(first: nat, bodies: Seq<Seq<u8>>) -> Seq<u8>
    decreases bodies.len(),
{
    if bodies.len() == 0 {
        Seq::empty()
    } else {
        objects_bytes(first, bodies.drop_last()) + object_bytes(
            (first + bodies.len() - 1) as nat,
            bodies.last(),
        )
    }
}

/// Where each of the objects of `objects_bytes(first, bodies)` starts, when
/// they are written from position `start` on.
pub open spec fn object_starts(start: nat, first: nat, bodies: Seq<Seq<u8>>) -> Seq<Option<usize>>
    decreases bodies.len(),
{
    if bodies.len() == 0 {
        Seq::empty()
    } else {
        object_starts(start, first, bodies.drop_last()).push(
            Some((start + objects_bytes(first, bodies.drop_last()).len()) as usize),
        )
    }
}

/// Object number `id` begins at position `offset` of `doc`.
pub open spec fn starts_object(doc: Seq<u8>, offset: nat, id: nat) -> bool {
    &&& offset + obj_header(id).len() <= doc.len()
    &&& doc.subrange(offset as int, (offset + obj_header(id).len()) as int) == obj_header(id)
}

/// What begins at position `offset` of `doc` stays there when more is written.
pub proof fn lemma_starts_object_extend(doc: Seq<u8>, more: Seq<u8>, offset: nat, id: nat)
    requires
        starts_object(doc, offset, id),
    ensures
        starts_object(doc + more, offset, id),
{
    let h = obj_header(id).len() as int;
    assert((doc + more).subrange(offset as int, offset as int + h) =~= doc.subrange(
        offset as int,
        offset as int + h,
    ));
}

/// An object written at the end of `doc` begins where `doc` ended.
pub proof fn lemma_starts_object_appended(doc: Seq<u8>, id: nat, body: Seq<u8>, more: Seq<u8>)
    ensures
        starts_object(doc + object_bytes(id, body) + more, doc.len(), id),
{
    let all = doc + object_bytes(id, body) + more;
    let h = obj_header(id).len() as int;
    assert(all.subrange(doc.len() as int, doc.len() as int + h) =~= obj_header(id));
}

/// Writing one more object extends the bytes and the list of starts by one.
pub proof fn lemma_objects_step(start: nat, first: nat, bodies: Seq<Seq<u8>>, k: int)
    requires
        0 <= k < bodies.len(),
    ensures
        objects_bytes(first, bodies.take(k + 1)) == objects_bytes(first, bodies.take(k))
            + object_bytes((first + k) as nat, bodies[k]),
        object_starts(start, first, bodies.take(k + 1)) == object_starts(
            start,
            first,
            bodies.take(k),
        ).push(Some((start + objects_bytes(first, bodies.take(k)).len()) as usize)),
{
    assert(bodies.take(k + 1).drop_last() =~= bodies.take(k));
}

/// The number of starts is the number of objects.
pub proof fn lemma_object_starts_len(start: nat, first: nat, bodies: Seq<Seq<u8>>)
    ensures
        object_starts(start, first, bodies).len() == bodies.len(),
    decreases bodies.len(),
{
    if bodies.len() > 0 {
        lemma_object_starts_len(start, first, bodies.drop_last());
    }
}

} // verus!
