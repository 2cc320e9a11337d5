//! Splits the whole input into blocks, one device each, and reads each
//! block into a record.
use vstd::prelude::*;

use crate::record::apply_line;
use crate::record::apply_lines;
use crate::record::block_lines;
use crate::record::block_unknown;
use crate::record::colon_at;
use crate::record::empty_view;
use crate::record::key_of;
use crate::record::Key;
use crate::record::parse_block;
use crate::record::parse_block_spec;
use crate::record::strings_view;
use crate::record::Pci;
use crate::record::PciView;
use crate::text::chars_of;
use crate::text::find;
use crate::text::is_ws;
use crate::text::lemma_find_none;
use crate::text::lemma_split_none;
use crate::text::lemma_split_shift;
use crate::text::lemma_split_skip;
use crate::text::lemma_trim_ends;
use crate::text::lemma_trim_fixed;
use crate::text::lemma_trim_idempotent;
use crate::text::occurs_at;
use crate::text::occurs;
use crate::text::split;
use crate::text::split_from;
use crate::text::trim;
use crate::text::trim_range;

verus! {

/// The block separator: a blank line.
pub open spec fn block_sep() -> Seq<char> {
    seq!['\n', '\n']
}

/// The blocks of `input`: none where it is blank, else the pieces of the
/// trimmed input between blank lines.
pub open spec fn blocks(input: Seq<char>) -> Seq<Seq<char>> {
    let t = trim(input);
    if t.len() == 0 {
        Seq::empty()
    } else {
        split(t, block_sep())
    }
}

/// The records of the blocks `bs`, in order.
pub open spec fn parse_blocks(bs: Seq<Seq<char>>) -> Seq<PciView>
    decreases bs.len(),
{
    if bs.len() == 0 {
        Seq::empty()
    } else {
        seq![parse_block_spec(bs[0])] + parse_blocks(bs.drop_first())
    }
}

/// The unknown keys of the blocks `bs`, in order.
pub open spec fn blocks_unknown(bs: Seq<Seq<char>>) -> Seq<Seq<char>>
    decreases bs.len(),
{
    if bs.len() == 0 {
        Seq::empty()
    } else {
        block_unknown(bs[0]) + blocks_unknown(bs.drop_first())
    }
}

/// The records that `input` describes, one per block, in input order.
pub open spec fn parse_spec(input: Seq<char>) -> Seq<PciView> {
    parse_blocks(blocks(input))
}

/// The keys in `input` that no field takes, in input order.
pub open spec fn unknown_keys(input: Seq<char>) -> Seq<Seq<char>> {
    blocks_unknown(blocks(input))
}

/// What each record of `v` holds.
pub open spec fn records_view(v: Seq<Pci>) -> Seq<PciView> {
    v.map_values(|p: Pci| p@)
}

proof fn lemma_blocks_cons(x: Seq<char>, rest: Seq<Seq<char>>)
    ensures
        parse_blocks(seq![x] + rest) == seq![parse_block_spec(x)] + parse_blocks(rest),
        blocks_unknown(seq![x] + rest) == block_unknown(x) + blocks_unknown(rest),
{
    assert((seq![x] + rest).drop_first() =~= rest);
}

/// Whether `line` has a key that a record field takes.
pub open spec fn has_field_key(line: Seq<char>) -> bool {
    colon_at(line) >= 0 && key_of(line.subrange(0, colon_at(line))) != Key::Other
}

proof fn lemma_no_field_lines(r: PciView, ls: Seq<Seq<char>>)
    requires
        forall|i: int| 0 <= i < ls.len() ==> !has_field_key(#[trigger] ls[i]),
    ensures
        apply_lines(r, ls) == r,
    decreases ls.len(),
{
    if ls.len() > 0 {
        assert(!has_field_key(ls[0]));
        assert(apply_line(r, ls[0]) == r);
        assert forall|i: int| 0 <= i < ls.drop_first().len() implies !has_field_key(
            #[trigger] ls.drop_first()[i],
        ) by {
            assert(ls.drop_first()[i] == ls[i + 1]);
        }
        lemma_no_field_lines(r, ls.drop_first());
    }
}

/// A trimmed text without a blank line is one block.
proof fn lemma_single_block(t: Seq<char>)
    requires
        t.len() > 0,
        trim(t) == t,
        find(t, block_sep()) == -1,
    ensures
        blocks(t) == seq![t],
        parse_spec(t) == seq![parse_block_spec(t)],
        unknown_keys(t) == block_unknown(t),
{
    assert forall|j: int| 0 <= j implies !occurs_at(t, block_sep(), j) by {
        lemma_find_none(t, block_sep(), 0, j);
    }
    lemma_split_none(t, block_sep(), 0, 0);
    assert(t.subrange(0, t.len() as int) =~= t);
    lemma_blocks_cons(t, Seq::empty());
    assert(seq![t] + Seq::<Seq<char>>::empty() =~= seq![t]);
    assert(seq![parse_block_spec(t)] + Seq::<PciView>::empty() =~= seq![parse_block_spec(t)]);
    assert(block_unknown(t) + Seq::<Seq<char>>::empty() =~= block_unknown(t));
}

/// An input of one block, none of whose lines has a key that a field takes,
/// gives exactly one record, with every field absent.
pub proof fn lemma_unrecognized_block(input: Seq<char>)
    requires
        trim(input).len() > 0,
        find(trim(input), block_sep()) == -1,
        forall|i: int|
            0 <= i < block_lines(input).len() ==> !has_field_key(#[trigger] block_lines(input)[i]),
    ensures
        parse_spec(input) == seq![empty_view()],
{
    let t = trim(input);
    lemma_trim_idempotent(input);
    lemma_single_block(t);
    assert(blocks(input) == blocks(t));
    assert(block_lines(t) == block_lines(input));
    lemma_no_field_lines(empty_view(), block_lines(input));
}

/// Two blocks joined by a blank line give the records of each block read on
/// its own, first those of `a`, then those of `b`; the unknown keys likewise.
pub proof fn lemma_two_blocks(a: Seq<char>, b: Seq<char>)
    requires
        a.len() > 0,
        b.len() > 0,
        trim(a) == a,
        trim(b) == b,
        find(a, block_sep()) == -1,
    ensures
        parse_spec(a + block_sep() + b) == parse_spec(a) + parse_spec(b),
        unknown_keys(a + block_sep() + b) == unknown_keys(a) + unknown_keys(b),
        find(b, block_sep()) == -1 ==> parse_spec(a + block_sep() + b) == seq![
            parse_block_spec(a),
            parse_block_spec(b),
        ],
{
    let sep = block_sep();
    let s = a + sep + b;
    let la = a.len() as int;
    lemma_trim_ends(a);
    lemma_trim_ends(b);
    assert(s[0] == a[0]);
    assert(s.last() == b.last());
    lemma_trim_fixed(s);
    assert forall|j: int| 0 <= j < la implies !occurs_at(s, sep, j) by {
        if j + 2 <= la {
            assert(s.subrange(j, j + 2) =~= a.subrange(j, j + 2));
            lemma_find_none(a, sep, 0, j);
        } else {
            assert(s.subrange(j, j + 2)[0] == a.last());
            assert(is_ws('\n'));
        }
    }
    lemma_split_skip(s, sep, 0, 0, la);
    assert(s.subrange(la, la + 2) =~= sep);
    assert(s.subrange(0, la) =~= a);
    lemma_split_shift(a + sep, b, sep, 0, 0);
    assert(split(s, sep) == seq![a] + split(b, sep));
    lemma_blocks_cons(a, split(b, sep));
    lemma_single_block(a);
    assert(blocks(b) == split(b, sep));
    if find(b, sep) == -1 {
        lemma_single_block(b);
        assert(seq![parse_block_spec(a)] + seq![parse_block_spec(b)] =~= seq![
            parse_block_spec(a),
            parse_block_spec(b),
        ]);
    }
}

/// Parses the whole input into one record per block, in input order, and
/// appends to `unknown` each key that no field takes, in input order.
pub fn parse_reporting(input: &str, unknown: &mut Vec<String>) -> (r: Vec<Pci>)
    ensures
        records_view(r@) == parse_spec(input@),
        strings_view(final(unknown)@) == strings_view(old(unknown)@) + unknown_keys(input@),
{
    let v = chars_of(input);
    let (a, b) = trim_range(&v, 0, v.len());
    assert(v@.subrange(0, v@.len() as int) =~= input@);
    let ghost t = v@.subrange(a as int, b as int);
    let mut recs: Vec<Pci> = Vec::new();
    if a == b {
        assert(strings_view(unknown@) + Seq::empty() =~= strings_view(unknown@));
        assert(records_view(recs@) =~= Seq::empty());
        return recs;
    }
    let ghost bs = split(t, block_sep());
    let ghost w0 = strings_view(unknown@);
    let sep = vec!['\n', '\n'];
    assert(sep@ =~= block_sep());
    let mut start: usize = a;
    let mut i: usize = a;
    while 2 <= b - i
        invariant
            a <= start <= i <= b <= v.len(),
            t == v@.subrange(a as int, b as int),
            sep@ == block_sep(),
            parse_blocks(bs) == records_view(recs@) + parse_blocks(
                split_from(t, block_sep(), start - a, i - a),
            ),
            w0 + blocks_unknown(bs) == strings_view(unknown@) + blocks_unknown(
                split_from(t, block_sep(), start - a, i - a),
            ),
        decreases b - i,
    {
        if occurs(&v, a, b, &sep, i) {
            let ghost piece = t.subrange(start - a, i - a);
            let ghost rest = split_from(t, block_sep(), i + 2 - a, i + 2 - a);
            assert(piece =~= v@.subrange(start as int, i as int));
            proof {
                lemma_blocks_cons(piece, rest);
            }
            let ghost u = strings_view(unknown@);
            let ghost rv = records_view(recs@);
            let rec = parse_block(&v, start, i, unknown);
            recs.push(rec);
            assert(records_view(recs@) =~= rv.push(rec@));
            assert(rv + (seq![rec@] + parse_blocks(rest)) =~= records_view(recs@) + parse_blocks(
                rest,
            ));
            assert(u + (block_unknown(piece) + blocks_unknown(rest)) =~= strings_view(unknown@)
                + blocks_unknown(rest));
            start = i + 2;
            i = i + 2;
        } else {
            i += 1;
        }
    }
    let ghost piece = t.subrange(start - a, t.len() as int);
    assert(split_from(t, block_sep(), start - a, i - a) == seq![piece]);
    assert(piece =~= v@.subrange(start as int, b as int));
    proof {
        lemma_blocks_cons(piece, Seq::empty());
        assert(seq![piece] + Seq::<Seq<char>>::empty() =~= seq![piece]);
    }
    let ghost u = strings_view(unknown@);
    let ghost rv = records_view(recs@);
    let rec = parse_block(&v, start, b, unknown);
    recs.push(rec);
    assert(records_view(recs@) =~= rv.push(rec@));
    assert(rv + (seq![rec@] + Seq::empty()) =~= records_view(recs@));
    assert(u + (block_unknown(piece) + Seq::empty()) =~= strings_view(unknown@));
    recs
}

/// Parses the whole input into one record per block, in input order.
pub fn parse(input: &str) -> (r: Vec<Pci>)
    ensures
        records_view(r@) == parse_spec(input@),
{
    let mut unknown: Vec<String> = Vec::new();
    parse_reporting(input, &mut unknown)
}

} // verus!
