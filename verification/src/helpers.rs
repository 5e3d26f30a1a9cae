//! Hexadecimal dumps of binary data.

use vstd::prelude::*;

use crate::number::{decimal, hex_byte, push_decimal, push_hex_byte};
use crate::text::joined;

verus! {

/// The bytes that a dump shows.
pub open spec fn shown(data: Seq<u8>, max_len: int) -> Seq<u8> {
    if data.len() <= max_len {
        data
    } else {
        data.take(max_len)
    }
}

/// Each byte as two hexadecimal digits.
pub open spec fn hex_pairs(data: Seq<u8>) -> Seq<Seq<char>> {
    Seq::new(data.len(), |i: int| hex_byte(data[i]))
}

/// Bytes in hexadecimal, with spaces between them.
pub open spec fn hex_text(data: Seq<u8>) -> Seq<char> {
    joined(hex_pairs(data), ' ')
}

/// Write `data[from..to]` in hexadecimal, with spaces between the bytes.
fn push_hex(out: &mut String, data: &[u8], from: usize, to: usize)
    requires
        from <= to <= data@.len(),
    ensures
        final(out)@ == old(out)@ + hex_text(data@.subrange(from as int, to as int)),
{
    let ghost start = out@;
    let ghost part = data@.subrange(from as int, to as int);
    let mut i: usize = from;
    proof {
        assert(hex_pairs(part).take(0) =~= Seq::empty());
        assert(out@ =~= start + joined(hex_pairs(part).take(0), ' '));
    }
    while i < to
        invariant
            from <= i <= to <= data@.len(),
            part == data@.subrange(from as int, to as int),
            out@ == start + joined(hex_pairs(part).take(i - from), ' '),
        decreases to - i,
    {
        if i > from {
            out.push(' ');
        }
        push_hex_byte(out, data[i]);
        proof {
            let pairs = hex_pairs(part).take(i + 1 - from);
            assert(pairs.drop_last() =~= hex_pairs(part).take(i - from));
            assert(pairs.last() == hex_byte(data@[i as int]));
            assert(out@ =~= start + joined(pairs, ' '));
        }
        i = i + 1;
    }
    proof {
        assert(hex_pairs(part).take(to - from) =~= hex_pairs(part));
    }
}

/// Bytes in hexadecimal.  Of more than `max_len` bytes the first are shown
/// and all are counted.
pub fn hex_dump(data: &[u8], max_len: usize) -> (r: String)
    ensures
        r@ == hex_text(shown(data@, max_len as int)) + (if data@.len() > max_len {
            " ... ("@ + decimal(data@.len()) + " bytes total)"@
        } else {
            Seq::empty()
        }),
{
    let mut out = String::new();
    let total: usize = data.len();
    let len: usize = if total < max_len { total } else { max_len };
    push_hex(&mut out, data, 0, len);
    assert(data@.subrange(0, len as int) =~= shown(data@, max_len as int));
    if total > max_len {
        out.append(" ... (");
        push_decimal(&mut out, total as u64);
        out.append(" bytes total)");
    }
    assert(out@ =~= hex_text(shown(data@, max_len as int)) + (if data@.len() > max_len {
        " ... ("@ + decimal(data@.len()) + " bytes total)"@
    } else {
        Seq::empty()
    }));
    out
}

/// A byte as a character: itself where it is a visible ASCII character, and
/// a dot elsewhere.
pub open spec fn visible(b: u8) -> char {
    if 33 <= b <= 126 {
        b as char
    } else {
        '.'
    }
}

/// Bytes as characters.
pub open spec fn visible_text(data: Seq<u8>) -> Seq<char> {
    Seq::new(data.len(), |i: int| visible(data[i]))
}

/// A text with spaces behind it, as many as make it `width` characters long.
pub open spec fn padded(s: Seq<char>, width: int) -> Seq<char> {
    if s.len() < width {
        s + Seq::new((width - s.len()) as nat, |i: int| ' ')
    } else {
        s
    }
}

/// One row of a dump: the bytes in hexadecimal, filled up to 48 characters,
/// two spaces, and the bytes as characters.
pub open spec fn dump_row(data: Seq<u8>) -> Seq<char> {
    padded(hex_text(data), 48) + seq![' ', ' '] + visible_text(data)
}

/// The rows of a dump, of 16 bytes each but for the last.
pub open spec fn dump_rows(data: Seq<u8>) -> Seq<Seq<char>>
    decreases data.len(),
{
    if data.len() == 0 {
        Seq::empty()
    } else if data.len() <= 16 {
        seq![dump_row(data)]
    } else {
        seq![dump_row(data.take(16))] + dump_rows(data.skip(16))
    }
}

/// Two digits for each byte and a space between two of them.
proof fn lemma_hex_text_len(data: Seq<u8>)
    ensures
        hex_text(data).len() == (if data.len() == 0 { 0 } else { 3 * data.len() - 1 }),
    decreases data.len(),
{
    let pairs = hex_pairs(data);
    if data.len() > 1 {
        lemma_hex_text_len(data.drop_last());
        assert(pairs.drop_last() =~= hex_pairs(data.drop_last()));
    }
}

/// Write one row of a dump for `data[from..to]`.
fn push_row(out: &mut String, data: &[u8], from: usize, to: usize)
    requires
        from < to <= data@.len(),
        to - from <= 16,
    ensures
        final(out)@ == old(out)@ + dump_row(data@.subrange(from as int, to as int)),
{
    let ghost start = out@;
    let ghost part = data@.subrange(from as int, to as int);
    let ghost hex = hex_text(part);
    push_hex(out, data, from, to);
    proof {
        lemma_hex_text_len(part);
    }
    let mut width: usize = 3 * (to - from) - 1;
    while width < 48
        invariant
            hex.len() <= width <= 48,
            out@ == start + padded(hex, width as int),
        decreases 48 - width,
    {
        out.push(' ');
        width = width + 1;
        proof {
            assert(out@ =~= start + padded(hex, width as int));
        }
    }
    out.append("  ");
    proof {
        reveal_strlit("  ");
        assert(out@ =~= start + padded(hex, 48) + seq![' ', ' ']);
        assert(visible_text(part).take(0) =~= Seq::empty());
        assert(out@ =~= start + padded(hex, 48) + seq![' ', ' '] + visible_text(part).take(0));
    }
    let mut i: usize = from;
    while i < to
        invariant
            from <= i <= to <= data@.len(),
            part == data@.subrange(from as int, to as int),
            out@ == start + padded(hex, 48) + seq![' ', ' '] + visible_text(part).take(i - from),
        decreases to - i,
    {
        let b: u8 = data[i];
        out.push(if 33 <= b && b <= 126 { b as char } else { '.' });
        proof {
            assert(visible_text(part).take(i + 1 - from) =~= visible_text(part).take(
                i - from,
            ).push(visible(b)));
            assert(out@ =~= start + padded(hex, 48) + seq![' ', ' '] + visible_text(part).take(
                i + 1 - from,
            ));
        }
        i = i + 1;
    }
    proof {
        assert(visible_text(part).take(to - from) =~= visible_text(part));
        assert(out@ =~= start + dump_row(part));
    }
}

/// A table of the first `max_len` bytes, 16 to a row: in hexadecimal on the
/// left, as characters on the right.
pub fn hex_dump_pretty(data: &[u8], max_len: usize) -> (r: String)
    ensures
        r@ == joined(dump_rows(shown(data@, max_len as int)), '\n'),
{
    let total: usize = data.len();
    let len: usize = if total < max_len { total } else { max_len };
    let ghost all = shown(data@, max_len as int);
    let mut out = String::new();
    let mut from: usize = 0;
    let ghost mut done: Seq<Seq<char>> = Seq::empty();
    proof {
        assert(all.skip(0) =~= all);
        assert(done + dump_rows(all) =~= dump_rows(all));
        assert(out@ =~= joined(done, '\n'));
    }
    while from < len
        invariant
            from <= len <= data@.len(),
            len == all.len(),
            all == data@.take(len as int),
            done + dump_rows(all.skip(from as int)) == dump_rows(all),
            out@ == joined(done, '\n'),
            from > 0 <==> done.len() > 0,
        decreases len - from,
    {
        let to: usize = if len - from > 16 { from + 16 } else { len };
        let ghost part = data@.subrange(from as int, to as int);
        let ghost before = done;
        if from > 0 {
            out.push('\n');
        }
        push_row(&mut out, data, from, to);
        proof {
            let rest = all.skip(from as int);
            if len - from > 16 {
                assert(rest.take(16) =~= part);
                assert(rest.skip(16) =~= all.skip(to as int));
            } else {
                assert(rest =~= part);
                assert(all.skip(to as int) =~= Seq::empty());
            }
            done = before.push(dump_row(part));
            assert(done.drop_last() =~= before);
            assert(done + dump_rows(all.skip(to as int)) =~= before + dump_rows(rest));
            assert(out@ =~= joined(done, '\n'));
        }
        from = to;
    }
    proof {
        assert(all.skip(from as int) =~= Seq::empty());
        assert(done + dump_rows(all.skip(from as int)) =~= done);
    }
    out
}

/// The columns of a table are aligned: in every row the characters stand
/// behind the first 50 columns.
pub proof fn law_rows_are_aligned(data: Seq<u8>)
    requires
        data.len() <= 16,
    ensures
        dump_row(data).len() == 50 + data.len(),
        dump_row(data).skip(50) == visible_text(data),
{
    lemma_hex_text_len(data);
    assert(dump_row(data).skip(50) =~= visible_text(data));
}

/// Where each byte stands in a hexadecimal text: it has two digits, the higher
/// first, and a space behind them unless it is the last.
pub proof fn law_hex_text_layout(data: Seq<u8>, i: int)
    requires
        0 <= i < data.len(),
    ensures
        hex_text(data).len() == 3 * data.len() - 1,
        hex_text(data)[3 * i] == hex_byte(data[i])[0],
        hex_text(data)[3 * i + 1] == hex_byte(data[i])[1],
        i + 1 < data.len() ==> hex_text(data)[3 * i + 2] == ' ',
    decreases data.len(),
{
    lemma_hex_text_len(data);
    let pairs = hex_pairs(data);
    if data.len() == 1 {
        assert(hex_text(data) == pairs[0]);
    } else {
        let init = data.drop_last();
        lemma_hex_text_len(init);
        assert(pairs.drop_last() =~= hex_pairs(init));
        let head = hex_text(init);
        let last = hex_byte(data.last());
        assert(hex_text(data) == head.push(' ') + last);
        if i < init.len() {
            law_hex_text_layout(init, i);
        }
    }
}

/// A row of a table: the hexadecimal text, spaces up to column 50, and behind
/// them each byte as the visible ASCII character that it is, or as a dot.
pub proof fn law_row_layout(data: Seq<u8>)
    requires
        data.len() <= 16,
    ensures
        ({
            let row = dump_row(data);
            let hex = hex_text(data);
            &&& row.len() == 50 + data.len()
            &&& row.take(hex.len() as int) == hex
            &&& forall|i: int| hex.len() <= i < 50 ==> #[trigger] row[i] == ' '
            &&& forall|i: int|
                0 <= i < data.len() ==> row[50 + i] as int == (if 33 <= #[trigger] data[i] <= 126 {
                    data[i] as int
                } else {
                    46
                })
        }),
{
    lemma_hex_text_len(data);
    let row = dump_row(data);
    let hex = hex_text(data);
    assert(row.take(hex.len() as int) =~= hex);
    assert forall|i: int| 0 <= i < data.len() implies row[50 + i] as int == (if 33
        <= #[trigger] data[i] <= 126 {
        data[i] as int
    } else {
        46
    }) by {
        assert(row[50 + i] == visible_text(data)[i]);
    }
}

/// A table has a row for every 16 bytes and one for what is left over, each
/// with the bytes from its place on.
pub proof fn law_rows_of_a_table(data: Seq<u8>)
    ensures
        dump_rows(data).len() == (data.len() + 15) / 16,
        forall|i: int|
            0 <= i < dump_rows(data).len() ==> #[trigger] dump_rows(data)[i] == dump_row(
                data.subrange(
                    16 * i,
                    if 16 * i + 16 <= data.len() {
                        16 * i + 16
                    } else {
                        data.len() as int
                    },
                ),
            ),
    decreases data.len(),
{
    if data.len() == 0 {
    } else if data.len() <= 16 {
        assert(data.subrange(0, data.len() as int) =~= data);
    } else {
        let rest = data.skip(16);
        law_rows_of_a_table(rest);
        assert forall|i: int| 0 <= i < dump_rows(data).len() implies #[trigger] dump_rows(data)[i]
            == dump_row(
            data.subrange(
                16 * i,
                if 16 * i + 16 <= data.len() {
                    16 * i + 16
                } else {
                    data.len() as int
                },
            ),
        ) by {
            if i == 0 {
                assert(data.take(16) =~= data.subrange(0, 16));
            } else {
                assert(dump_rows(data)[i] == dump_rows(rest)[i - 1]);
                let j = i - 1;
                let end = if 16 * j + 16 <= rest.len() { 16 * j + 16 } else { rest.len() as int };
                assert(rest.subrange(16 * j, end) =~= data.subrange(16 * i, end + 16));
            }
        }
    }
}

/// What the dumps show: all bytes where there are at most `max_len`, and the
/// first `max_len` of more; and how many there are where not all are shown.
pub proof fn law_dumps(data: &[u8], max_len: usize, plain: String, table: String)
    requires
        call_ensures(hex_dump, (data, max_len), plain),
        call_ensures(hex_dump_pretty, (data, max_len), table),
    ensures
        ({
            let n = if data@.len() <= max_len { data@.len() as int } else { max_len as int };
            let part = data@.take(n);
            &&& table@ == joined(dump_rows(part), '\n')
            &&& plain@.take(hex_text(part).len() as int) == hex_text(part)
            &&& plain@.skip(hex_text(part).len() as int) == (if data@.len() > max_len {
                " ... ("@ + decimal(data@.len()) + " bytes total)"@
            } else {
                Seq::empty()
            })
        }),
{
    let n = if data@.len() <= max_len { data@.len() as int } else { max_len as int };
    let part = data@.take(n);
    assert(shown(data@, max_len as int) =~= part);
    let hex = hex_text(part);
    assert(plain@.take(hex.len() as int) =~= hex);
    assert(plain@.skip(hex.len() as int) =~= (if data@.len() > max_len {
        " ... ("@ + decimal(data@.len()) + " bytes total)"@
    } else {
        Seq::empty()
    }));
}

} // verus!
