//! The byte format of a stored database: a version number, then the rows,
//! both as the bincode crate writes them.

use bincode::Options;
use vstd::prelude::*;
use vstd::utf8::encode_utf8;

verus! {

/// A number in `count` bytes, the lowest first.
pub open spec fn le_bytes(number: nat, count: nat) -> Seq<u8>
    decreases count,
{
    if count == 0 {
        Seq::empty()
    } else {
        seq![(number % 256) as u8] + le_bytes(number / 256, (count - 1) as nat)
    }
}

/// How many numbers there are in `count` bytes.
pub open spec fn le_bound(count: nat) -> nat
    decreases count,
{
    if count == 0 {
        1
    } else {
        256 * le_bound((count - 1) as nat)
    }
}

/// Four bytes hold the numbers of 32 bits, and eight those of 64.
pub proof fn lemma_le_bounds()
    ensures
        le_bound(4) == u32::MAX + 1,
        le_bound(8) == u64::MAX + 1,
{
    reveal_with_fuel(le_bound, 9);
}

/// No two numbers have the same bytes.
pub proof fn lemma_le_injective(a: nat, b: nat, count: nat)
    ensures
        le_bytes(a, count).len() == count,
        a < le_bound(count) && b < le_bound(count) && le_bytes(a, count) == le_bytes(b, count)
            ==> a == b,
    decreases count,
{
    if count > 0 {
        let fewer = (count - 1) as nat;
        lemma_le_injective(a / 256, b / 256, fewer);
        lemma_le_injective(b / 256, a / 256, fewer);
        if a < le_bound(count) && b < le_bound(count) && le_bytes(a, count) == le_bytes(b, count) {
            assert(le_bytes(a, count)[0] == (a % 256) as u8);
            assert(le_bytes(b, count)[0] == (b % 256) as u8);
            assert(le_bytes(a, count).skip(1) =~= le_bytes(a / 256, fewer));
            assert(le_bytes(b, count).skip(1) =~= le_bytes(b / 256, fewer));
        }
    }
}

/// All bytes are those of a number.
pub proof fn lemma_le_surjective(bytes: Seq<u8>) -> (number: nat)
    ensures
        number < le_bound(bytes.len()),
        le_bytes(number, bytes.len()) == bytes,
    decreases bytes.len(),
{
    if bytes.len() == 0 {
        assert(le_bytes(0, 0) =~= bytes);
        0
    } else {
        let rest = lemma_le_surjective(bytes.drop_first());
        let number = (bytes[0] + 256 * rest) as nat;
        assert(number % 256 == bytes[0] && number / 256 == rest);
        assert(bytes.drop_first().len() == bytes.len() - 1);
        assert(le_bytes(number, bytes.len()) =~= bytes);
        number
    }
}

/// A row: the path, the bit pattern of the rank, and the access time.
pub type RowView = (Seq<char>, u64, u64);

/// What rows say.
pub open spec fn row_views(rows: Seq<(String, u64, u64)>) -> Seq<RowView> {
    rows.map_values(|row: (String, u64, u64)| (row.0@, row.1, row.2))
}

/// The bytes of a row: the length of its path, the path in UTF-8, the rank and
/// the access time, all numbers in eight bytes, the lowest first.
pub open spec fn encoded_row(row: RowView) -> Seq<u8> {
    let path = encode_utf8(row.0);
    le_bytes(path.len(), 8) + path + le_bytes(row.1 as nat, 8) + le_bytes(row.2 as nat, 8)
}

/// The bytes of rows, one after the other.
pub open spec fn encoded_rows(rows: Seq<RowView>) -> Seq<u8>
    decreases rows.len(),
{
    if rows.len() == 0 {
        Seq::empty()
    } else {
        encoded_row(rows[0]) + encoded_rows(rows.drop_first())
    }
}

/// The bytes of a list of rows: their number, then the rows.
pub open spec fn encoded_list(rows: Seq<RowView>) -> Seq<u8> {
    le_bytes(rows.len(), 8) + encoded_rows(rows)
}

/// The error that bincode reports.
#[verifier::external_type_specification]
#[verifier::external_body]
pub struct ExErrorKind(bincode::ErrorKind);

/// `bincode::serialize_into`, for a number: appends its four bytes, the lowest
/// first. Its integers have a fixed width, there is no size limit, and
/// appending to a vector does not fail.
#[verifier::external_body]
pub(crate) fn put_number(buffer: &mut Vec<u8>, number: u32) -> (result: Result<
    (),
    Box<bincode::ErrorKind>,
>)
    ensures
        result is Ok,
        final(buffer)@ == old(buffer)@ + le_bytes(number as nat, 4),
{
    bincode::serialize_into(&mut *buffer, &number)
}

/// `bincode::serialize_into`, for rows: appends their number and then each
/// row's fields in their order, a string as its length and its UTF-8 bytes.
/// There is no size limit, and appending to a vector does not fail.
#[verifier::external_body]
pub(crate) fn put_rows(buffer: &mut Vec<u8>, rows: &Vec<(String, u64, u64)>) -> (result: Result<
    (),
    Box<bincode::ErrorKind>,
>)
    ensures
        result is Ok,
        final(buffer)@ == old(buffer)@ + encoded_list(row_views(rows@)),
{
    bincode::serialize_into(&mut *buffer, rows)
}

/// `bincode::Options::deserialize`, for a number, with integers of a fixed
/// width: gives the number whose bytes these are, and an error where there is
/// none. Bytes that are left over are an error. A slice is read without a
/// limit, whatever limit is set.
#[verifier::external_body]
pub(crate) fn get_number(bytes: &[u8], limit: u64) -> (result: Result<
    u32,
    Box<bincode::ErrorKind>,
>)
    ensures
        match result {
            Ok(number) => bytes@ == le_bytes(number as nat, 4),
            Err(_) => forall|number: nat|
                number <= u32::MAX ==> bytes@ != #[trigger] le_bytes(number, 4),
        },
{
    bincode::options().with_fixint_encoding().with_limit(limit).deserialize(bytes)
}

/// What is wrong with bytes that are not those of any rows.
pub uninterp spec fn rows_error(bytes: Seq<u8>) -> Seq<char>;

/// `bincode::Options::deserialize`, for rows, with integers of a fixed width:
/// gives the rows whose bytes these are, and the text of an error where there
/// are none. Bytes that are left over are an error. A slice is read without a
/// limit, whatever limit is set. The text goes by the bytes where a machine
/// word has eight of them; on a smaller one it can be about a length that does
/// not fit, and is left open.
#[verifier::external_body]
pub(crate) fn get_rows(bytes: &[u8], limit: u64) -> (result: Result<
    Vec<(String, u64, u64)>,
    String,
>)
    ensures
        match result {
            Ok(rows) => bytes@ == encoded_list(row_views(rows@)),
            Err(error) => {
                &&& forall|rows: Seq<RowView>| bytes@ != #[trigger] encoded_list(rows)
                &&& usize::MAX == u64::MAX ==> error@ == rows_error(bytes@)
            },
        },
{
    let options = bincode::options().with_fixint_encoding().with_limit(limit);
    match options.deserialize(bytes) {
        Ok(rows) => Ok(rows),
        Err(error) => Err(error.to_string()),
    }
}

/// A prefix of a sequence is determined by its length.
proof fn lemma_split<T>(a: Seq<T>, b: Seq<T>, c: Seq<T>, d: Seq<T>)
    requires
        a + b == c + d,
        a.len() == c.len(),
    ensures
        a == c,
        b == d,
{
    assert(a =~= (a + b).take(a.len() as int));
    assert(c =~= (c + d).take(c.len() as int));
    assert(b =~= (a + b).skip(a.len() as int));
    assert(d =~= (c + d).skip(c.len() as int));
}

proof fn lemma_number_bytes(a: u64, b: u64)
    ensures
        le_bytes(a as nat, 8).len() == 8,
        le_bytes(a as nat, 8) == le_bytes(b as nat, 8) ==> a == b,
{
    lemma_le_bounds();
    lemma_le_injective(a as nat, b as nat, 8);
}

/// The first row of two equal byte sequences is the same, and so is what
/// follows it.
proof fn lemma_row_injective(a: RowView, b: RowView, after_a: Seq<u8>, after_b: Seq<u8>)
    requires
        encoded_row(a) + after_a == encoded_row(b) + after_b,
        encode_utf8(a.0).len() <= u64::MAX,
        encode_utf8(b.0).len() <= u64::MAX,
    ensures
        a == b,
        after_a == after_b,
{
    let p = encode_utf8(a.0);
    let q = encode_utf8(b.0);
    let x = le_bytes(p.len(), 8);
    let y = le_bytes(q.len(), 8);
    let x1 = le_bytes(a.1 as nat, 8);
    let y1 = le_bytes(b.1 as nat, 8);
    let x2 = le_bytes(a.2 as nat, 8);
    let y2 = le_bytes(b.2 as nat, 8);
    lemma_number_bytes(p.len() as u64, q.len() as u64);
    lemma_number_bytes(q.len() as u64, p.len() as u64);
    lemma_number_bytes(a.1, b.1);
    lemma_number_bytes(b.1, a.1);
    lemma_number_bytes(a.2, b.2);
    lemma_number_bytes(b.2, a.2);
    assert(encoded_row(a) + after_a =~= x + (p + (x1 + (x2 + after_a))));
    assert(encoded_row(b) + after_b =~= y + (q + (y1 + (y2 + after_b))));
    lemma_split(x, p + (x1 + (x2 + after_a)), y, q + (y1 + (y2 + after_b)));
    lemma_split(p, x1 + (x2 + after_a), q, y1 + (y2 + after_b));
    lemma_split(x1, x2 + after_a, y1, y2 + after_b);
    lemma_split(x2, after_a, y2, after_b);
    crate::text::lemma_encode_utf8_injective(a.0, b.0);
}

/// Whether every length that is written with these rows fits the eight bytes
/// that it is written in.
pub open spec fn storable_rows(rows: Seq<RowView>) -> bool {
    &&& rows.len() <= u64::MAX
    &&& forall|i: int| 0 <= i < rows.len() ==> encode_utf8((#[trigger] rows[i]).0).len() <= u64::MAX
}

proof fn lemma_rows_injective(a: Seq<RowView>, b: Seq<RowView>)
    requires
        encoded_rows(a) == encoded_rows(b),
        a.len() == b.len(),
        storable_rows(a),
        storable_rows(b),
    ensures
        a == b,
    decreases a.len(),
{
    if a.len() > 0 {
        assert(encode_utf8(a[0].0).len() <= u64::MAX);
        assert(encode_utf8(b[0].0).len() <= u64::MAX);
        lemma_row_injective(
            a[0],
            b[0],
            encoded_rows(a.drop_first()),
            encoded_rows(b.drop_first()),
        );
        assert forall|i: int| 0 <= i < a.drop_first().len() implies encode_utf8(
            (#[trigger] a.drop_first()[i]).0,
        ).len() <= u64::MAX by {
            assert(a.drop_first()[i] == a[i + 1]);
        }
        assert forall|i: int| 0 <= i < b.drop_first().len() implies encode_utf8(
            (#[trigger] b.drop_first()[i]).0,
        ).len() <= u64::MAX by {
            assert(b.drop_first()[i] == b[i + 1]);
        }
        lemma_rows_injective(a.drop_first(), b.drop_first());
        assert(a =~= seq![a[0]] + a.drop_first());
        assert(b =~= seq![b[0]] + b.drop_first());
    } else {
        assert(a =~= b);
    }
}

/// No two lists of rows are stored as the same bytes.
pub proof fn lemma_list_injective(a: Seq<RowView>, b: Seq<RowView>)
    requires
        encoded_list(a) == encoded_list(b),
        storable_rows(a),
        storable_rows(b),
    ensures
        a == b,
{
    lemma_number_bytes(a.len() as u64, b.len() as u64);
    lemma_number_bytes(b.len() as u64, a.len() as u64);
    lemma_split(
        le_bytes(a.len(), 8),
        encoded_rows(a),
        le_bytes(b.len(), 8),
        encoded_rows(b),
    );
    lemma_rows_injective(a, b);
}

} // verus!
