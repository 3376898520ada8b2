//! The search index of data set names, built as a finite state transducer map.

use vstd::prelude::*;
use vstd::utf8::encode_utf8;
use fst::MapBuilder;

verus! {

#[verifier::external_type_specification]
#[verifier::external_body]
#[verifier::reject_recursive_types(W)]
pub struct ExMapBuilder<W>(MapBuilder<W>);

#[verifier::external_type_specification]
#[verifier::external_body]
pub struct ExFstError(fst::Error);

/// A map builder that writes into memory.
pub type IndexBuilder = MapBuilder<Vec<u8>>;

/// The key-value pairs inserted into a builder so far, in order.
pub uninterp spec fn index_entries(b: IndexBuilder) -> Seq<(Seq<u8>, u64)>;

/// What `MapBuilder::into_inner` of fst writes for a map of the given entries.
pub uninterp spec fn fst_map_bytes(entries: Seq<(Seq<u8>, u64)>) -> Seq<u8>;

/// `a` comes strictly before `b` in the lexicographic order of byte strings.
pub open spec fn bytes_lt(a: Seq<u8>, b: Seq<u8>) -> bool
    decreases a.len(),
{
    if a.len() == 0 {
        b.len() > 0
    } else if b.len() == 0 {
        false
    } else if a[0] != b[0] {
        a[0] < b[0]
    } else {
        bytes_lt(a.drop_first(), b.drop_first())
    }
}

/// `MapBuilder::memory` of fst: a builder with nothing inserted yet.
#[verifier::external_body]
fn index_builder() -> (b: IndexBuilder)
    ensures
        index_entries(b) == Seq::<(Seq<u8>, u64)>::empty(),
{
    MapBuilder::memory()
}

/// `MapBuilder::insert` of fst. It refuses a key that is not strictly greater than
/// every key inserted before; when it succeeds the builder holds one more entry.
/// Its only other failure is a write error of the underlying writer, and this
/// builder writes into a `Vec<u8>`, which grows as needed, so an insert in
/// increasing key order succeeds. A builder that refused an insert is dropped.
#[verifier::external_body]
fn index_insert(b: IndexBuilder, key: &[u8], val: u64) -> (r: Result<IndexBuilder, fst::Error>)
    ensures
        r matches Ok(nb) ==> index_entries(nb) == index_entries(b).push((key@, val)),
        r is Ok <==> index_entries(b).len() == 0 || bytes_lt(index_entries(b).last().0, key@),
{
    let mut b = b;
    b.insert(key, val).map(|_| b)
}

/// `MapBuilder::into_inner` of fst: the bytes of the finished map. It fails only on
/// a write error of the underlying writer, and this builder writes into a
/// `Vec<u8>`, which grows as needed, so it succeeds.
#[verifier::external_body]
fn index_finish(b: IndexBuilder) -> (r: Result<Vec<u8>, fst::Error>)
    ensures
        r is Ok,
        r matches Ok(v) ==> v@ == fst_map_bytes(index_entries(b)),
{
    b.into_inner()
}

/// Why the index could not be built.
#[derive(Clone, Copy, PartialEq, Eq, Structural, Debug)]
pub enum IndexError {
    /// The map builder refused an entry or could not finish the map.
    Build,
}

/// The entries of the index, in the order they are inserted.
pub open spec fn index_contents() -> Seq<(Seq<u8>, u64)> {
    seq![
        (encode_utf8("bruce"@), 1u64),
        (encode_utf8("clarence"@), 2u64),
        (encode_utf8("stevie"@), 3u64),
    ]
}

proof fn lemma_ascii_first_byte(chars: Seq<char>, c: u32)
    requires
        chars.len() > 0,
        chars[0] as u32 == c,
        c <= 0x7f,
    ensures
        encode_utf8(chars).len() > 0,
        encode_utf8(chars)[0] == c as u8,
{
    assert((c & 0x7F) as u8 == c as u8) by (bit_vector)
        requires
            c <= 0x7f,
    ;
    assert(encode_utf8(chars) == vstd::utf8::encode_scalar(c) + encode_utf8(chars.drop_first()));
}

/// The index keys are inserted in strictly increasing order, as the map builder
/// demands.
pub proof fn lemma_index_keys_sorted()
    ensures
        forall|i: int, j: int|
            0 <= i < j < index_contents().len() ==> bytes_lt(
                #[trigger] index_contents()[i].0,
                #[trigger] index_contents()[j].0,
            ),
{
    reveal_strlit("bruce");
    reveal_strlit("clarence");
    reveal_strlit("stevie");
    let b = encode_utf8("bruce"@);
    let c = encode_utf8("clarence"@);
    let s = encode_utf8("stevie"@);
    lemma_ascii_first_byte("bruce"@, 98);
    lemma_ascii_first_byte("clarence"@, 99);
    lemma_ascii_first_byte("stevie"@, 115);
    assert(bytes_lt(b, c));
    assert(bytes_lt(c, s));
    assert(bytes_lt(b, s));
}

/// Builds the index map in memory and gives its bytes. Its keys are inserted in
/// increasing order, so the builder accepts them all and this always succeeds.
pub fn build_index() -> (r: Result<Vec<u8>, IndexError>)
    ensures
        r is Ok,
        r matches Ok(v) ==> v@ == fst_map_bytes(index_contents()),
{
    proof {
        lemma_index_keys_sorted();
        assert(bytes_lt(index_contents()[0].0, index_contents()[1].0));
        assert(bytes_lt(index_contents()[1].0, index_contents()[2].0));
    }
    let b = index_builder();
    let b = match index_insert(b, "bruce".as_bytes(), 1) {
        Ok(b) => b,
        Err(_) => {
            return Err(IndexError::Build);
        },
    };
    let b = match index_insert(b, "clarence".as_bytes(), 2) {
        Ok(b) => b,
        Err(_) => {
            return Err(IndexError::Build);
        },
    };
    let b = match index_insert(b, "stevie".as_bytes(), 3) {
        Ok(b) => b,
        Err(_) => {
            return Err(IndexError::Build);
        },
    };
    proof {
        assert(index_entries(b) =~= index_contents());
    }
    match index_finish(b) {
        Ok(v) => Ok(v),
        Err(_) => Err(IndexError::Build),
    }
}

} // verus!
