//! Device records and the parser that builds them from blocks of
//! `Key: value [code]` lines.
use vstd::prelude::*;

use crate::code::decode_spec;
use crate::code::is_code;
use crate::code::CodeView;
use crate::code::PciCode;
use crate::text::find;
use crate::text::find_in;
use crate::text::occurs;
use crate::text::occurs_at;
use crate::text::lemma_rfind_found;
use crate::text::rfind;
use crate::text::rfind_in;
use crate::text::split;
use crate::text::split_from;
use crate::text::string_of;
use crate::text::trim;
use crate::text::trim_range;

verus! {

/// The keys that a record takes a field from.
#[derive(Debug, Clone, Copy, PartialEq, Eq, Structural)]
pub enum Key {
    Slot,
    Class,
    Vendor,
    SVendor,
    Device,
    SDevice,
    Rev,
    ProgIf,
    Other,
}

/// Which key the text `k` names; the match is exact and case-sensitive.
pub open spec fn key_of(k: Seq<char>) -> Key {
    if k == seq!['S', 'l', 'o', 't'] {
        Key::Slot
    } else if k == seq!['C', 'l', 'a', 's', 's'] {
        Key::Class
    } else if k == seq!['V', 'e', 'n', 'd', 'o', 'r'] {
        Key::Vendor
    } else if k == seq!['S', 'V', 'e', 'n', 'd', 'o', 'r'] {
        Key::SVendor
    } else if k == seq!['D', 'e', 'v', 'i', 'c', 'e'] {
        Key::Device
    } else if k == seq!['S', 'D', 'e', 'v', 'i', 'c', 'e'] {
        Key::SDevice
    } else if k == seq!['R', 'e', 'v'] {
        Key::Rev
    } else if k == seq!['P', 'r', 'o', 'g', 'I', 'f'] {
        Key::ProgIf
    } else {
        Key::Other
    }
}

/// The text that opens a bracketed code: a space and `[`.
pub open spec fn open_bracket() -> Seq<char> {
    seq![' ', '[']
}

/// `s` without its trailing `]` characters.
pub open spec fn strip_close(s: Seq<char>) -> Seq<char>
    decreases s.len(),
{
    if s.len() > 0 && s.last() == ']' {
        strip_close(s.drop_last())
    } else {
        s
    }
}

/// The plain text of a value: what stands before its last ` [`, or all of it.
pub open spec fn value_text(val: Seq<char>) -> Seq<char> {
    let i = rfind(val, open_bracket());
    if i < 0 {
        val
    } else {
        val.subrange(0, i)
    }
}

/// The candidate code of a value: what follows its last ` [`, without
/// trailing `]`; empty where the value has no ` [`.
pub open spec fn value_code(val: Seq<char>) -> Seq<char> {
    let i = rfind(val, open_bracket());
    if i < 0 {
        Seq::empty()
    } else {
        strip_close(val.subrange(i + 2, val.len() as int))
    }
}

/// A value that holds ` [` but does not end in `]` is split at its last
/// ` [`: the text is what stands before it and the candidate code is all
/// that follows it, which decodes only where it is a valid code.
pub proof fn lemma_unclosed_bracket(val: Seq<char>)
    requires
        rfind(val, open_bracket()) >= 0,
        val.last() != ']',
    ensures
        value_text(val) == val.subrange(0, rfind(val, open_bracket())),
        value_code(val) == val.subrange(rfind(val, open_bracket()) + 2, val.len() as int),
        decode_spec(value_code(val)) is Some <==> is_code(
            val.subrange(rfind(val, open_bracket()) + 2, val.len() as int),
        ),
{
    let i = rfind(val, open_bracket());
    lemma_rfind_found(val, open_bracket(), val.len() - 2);
    let c = val.subrange(i + 2, val.len() as int);
    if c.len() > 0 {
        assert(c.last() == val.last());
    }
}

/// Whether `c` is an ASCII decimal digit.
pub open spec fn is_dec_digit(c: char) -> bool {
    '0' <= c && c <= '9'
}

/// The base-10 value of the digits `s`.
pub open spec fn dec_value(s: Seq<char>) -> nat
    decreases s.len(),
{
    if s.len() == 0 {
        0
    } else {
        dec_value(s.drop_last()) * 10 + (s.last() as nat - '0' as nat) as nat
    }
}

/// The digits of an unsigned number: `s` without one leading `+`.
pub open spec fn unsigned_digits(s: Seq<char>) -> Seq<char> {
    if s.len() > 0 && s[0] == '+' {
        s.drop_first()
    } else {
        s
    }
}

/// `s` read as a `u64`, the way `str::parse` reads one: an optional `+`,
/// then one or more decimal digits whose value fits.
pub open spec fn parse_u64_spec(s: Seq<char>) -> Option<u64> {
    let d = unsigned_digits(s);
    if d.len() > 0 && (forall|i: int| 0 <= i < d.len() ==> is_dec_digit(#[trigger] d[i]))
        && dec_value(d) <= u64::MAX {
        Some(dec_value(d) as u64)
    } else {
        None
    }
}

/// What a record holds, with text as character sequences.
pub struct PciView {
    pub slot: Option<Seq<char>>,
    pub device: Option<Seq<char>>,
    pub device_code: Option<CodeView>,
    pub sub_device: Option<Seq<char>>,
    pub sub_device_code: Option<CodeView>,
    pub class: Option<Seq<char>>,
    pub class_code: Option<CodeView>,
    pub vendor: Option<Seq<char>>,
    pub vendor_code: Option<CodeView>,
    pub sub_vendor: Option<Seq<char>>,
    pub sub_vendor_code: Option<CodeView>,
    pub revision: Option<u64>,
    pub programming_interface: Option<Seq<char>>,
}

/// The record with every field absent.
pub open spec fn empty_view() -> PciView {
    PciView {
        slot: None,
        device: None,
        device_code: None,
        sub_device: None,
        sub_device_code: None,
        class: None,
        class_code: None,
        vendor: None,
        vendor_code: None,
        sub_vendor: None,
        sub_vendor_code: None,
        revision: None,
        programming_interface: None,
    }
}

/// A newly decoded code where there is one, else the code held before.
pub open spec fn or_keep(new: Option<CodeView>, old: Option<CodeView>) -> Option<CodeView> {
    if new is Some {
        new
    } else {
        old
    }
}

/// The position of the first `:` in `line`, or -1.
pub open spec fn colon_at(line: Seq<char>) -> int {
    find(line, seq![':'])
}

/// The record `r` after the line `line` has been read into it.
pub open spec fn apply_line(r: PciView, line: Seq<char>) -> PciView {
    let c = colon_at(line);
    if c < 0 {
        r
    } else {
        let val = trim(line.subrange(c + 1, line.len() as int));
        let text = value_text(val);
        let code = decode_spec(value_code(val));
        match key_of(line.subrange(0, c)) {
            Key::Slot => PciView { slot: Some(text), ..r },
            Key::Class => PciView { class: Some(text), class_code: or_keep(code, r.class_code), ..r },
            Key::Vendor => PciView {
                vendor: Some(text),
                vendor_code: or_keep(code, r.vendor_code),
                ..r
            },
            Key::SVendor => PciView {
                sub_vendor: Some(text),
                sub_vendor_code: or_keep(code, r.sub_vendor_code),
                ..r
            },
            Key::Device => PciView {
                device: Some(text),
                device_code: or_keep(code, r.device_code),
                ..r
            },
            Key::SDevice => PciView {
                sub_device: Some(text),
                sub_device_code: or_keep(code, r.sub_device_code),
                ..r
            },
            Key::Rev => PciView { revision: parse_u64_spec(text), ..r },
            Key::ProgIf => PciView { programming_interface: Some(text), ..r },
            Key::Other => r,
        }
    }
}

/// A `Class` line whose value holds ` [` but does not end in `]`, and
/// whose text after the last ` [` is not a valid code, sets the class text to
/// what stands before that ` [` and leaves an absent class code absent.
pub proof fn lemma_unclosed_class_line(r: PciView, line: Seq<char>)
    requires
        colon_at(line) >= 0,
        key_of(line.subrange(0, colon_at(line))) == Key::Class,
        rfind(trim(line.subrange(colon_at(line) + 1, line.len() as int)), open_bracket()) >= 0,
        trim(line.subrange(colon_at(line) + 1, line.len() as int)).last() != ']',
        !is_code(
            ({
                let val = trim(line.subrange(colon_at(line) + 1, line.len() as int));
                val.subrange(rfind(val, open_bracket()) + 2, val.len() as int)
            }),
        ),
        r.class_code is None,
    ensures
        ({
            let val = trim(line.subrange(colon_at(line) + 1, line.len() as int));
            apply_line(r, line).class == Some(val.subrange(0, rfind(val, open_bracket())))
        }),
        apply_line(r, line).class_code is None,
{
    lemma_unclosed_bracket(trim(line.subrange(colon_at(line) + 1, line.len() as int)));
}

/// The key of `line`, where it has one that no field takes.
pub open spec fn line_unknown(line: Seq<char>) -> Seq<Seq<char>> {
    let c = colon_at(line);
    if c >= 0 && key_of(line.subrange(0, c)) == Key::Other {
        seq![line.subrange(0, c)]
    } else {
        Seq::empty()
    }
}

/// A PCI device record; a field is `None` where its line was absent.
#[derive(Debug)]
pub struct Pci {
    pub slot: Option<String>,
    pub device: Option<String>,
    pub device_code: Option<PciCode>,
    pub sub_device: Option<String>,
    pub sub_device_code: Option<PciCode>,
    pub class: Option<String>,
    pub class_code: Option<PciCode>,
    pub vendor: Option<String>,
    pub vendor_code: Option<PciCode>,
    pub sub_vendor: Option<String>,
    pub sub_vendor_code: Option<PciCode>,
    pub revision: Option<u64>,
    pub programming_interface: Option<String>,
}

/// The characters of an optional string.
pub open spec fn text_view(o: Option<String>) -> Option<Seq<char>> {
    match o {
        Some(s) => Some(s@),
        None => None,
    }
}

/// What an optional code holds.
pub open spec fn code_view(o: Option<PciCode>) -> Option<CodeView> {
    match o {
        Some(c) => Some(c@),
        None => None,
    }
}

impl View for Pci {
    type V = PciView;

    open spec fn view(&self) -> PciView {
        PciView {
            slot: text_view(self.slot),
            device: text_view(self.device),
            device_code: code_view(self.device_code),
            sub_device: text_view(self.sub_device),
            sub_device_code: code_view(self.sub_device_code),
            class: text_view(self.class),
            class_code: code_view(self.class_code),
            vendor: text_view(self.vendor),
            vendor_code: code_view(self.vendor_code),
            sub_vendor: text_view(self.sub_vendor),
            sub_vendor_code: code_view(self.sub_vendor_code),
            revision: self.revision,
            programming_interface: text_view(self.programming_interface),
        }
    }
}

impl Pci {
    /// A record with every field absent.
    pub fn new() -> (r: Pci)
        ensures
            r@ == empty_view(),
    {
        Pci {
            slot: None,
            device: None,
            device_code: None,
            sub_device: None,
            sub_device_code: None,
            class: None,
            class_code: None,
            vendor: None,
            vendor_code: None,
            sub_vendor: None,
            sub_vendor_code: None,
            revision: None,
            programming_interface: None,
        }
    }
}

impl Default for Pci {
    fn default() -> (r: Pci)
        ensures
            r@ == empty_view(),
    {
        Pci::new()
    }
}

/// Whether `v` from `lo` up to `hi` is exactly `p`.
fn same_text(v: &Vec<char>, lo: usize, hi: usize, p: &Vec<char>) -> (r: bool)
    requires
        lo <= hi <= v.len(),
    ensures
        r == (v@.subrange(lo as int, hi as int) == p@),
{
    if hi - lo != p.len() {
        return false;
    }
    let r = occurs(v, lo, hi, p, lo);
    assert(v@.subrange(lo as int, hi as int).subrange(0, p@.len() as int) =~= v@.subrange(
        lo as int,
        hi as int,
    ));
    r
}

/// Which key `v` from `lo` up to `hi` names.
pub fn key_kind(v: &Vec<char>, lo: usize, hi: usize) -> (r: Key)
    requires
        lo <= hi <= v.len(),
    ensures
        r == key_of(v@.subrange(lo as int, hi as int)),
{
    if same_text(v, lo, hi, &vec!['S', 'l', 'o', 't']) {
        Key::Slot
    } else if same_text(v, lo, hi, &vec!['C', 'l', 'a', 's', 's']) {
        Key::Class
    } else if same_text(v, lo, hi, &vec!['V', 'e', 'n', 'd', 'o', 'r']) {
        Key::Vendor
    } else if same_text(v, lo, hi, &vec!['S', 'V', 'e', 'n', 'd', 'o', 'r']) {
        Key::SVendor
    } else if same_text(v, lo, hi, &vec!['D', 'e', 'v', 'i', 'c', 'e']) {
        Key::Device
    } else if same_text(v, lo, hi, &vec!['S', 'D', 'e', 'v', 'i', 'c', 'e']) {
        Key::SDevice
    } else if same_text(v, lo, hi, &vec!['R', 'e', 'v']) {
        Key::Rev
    } else if same_text(v, lo, hi, &vec!['P', 'r', 'o', 'g', 'I', 'f']) {
        Key::ProgIf
    } else {
        Key::Other
    }
}

/// Splits the value held in `v` from `lo` up to `hi` at its last ` [`:
/// the plain text is `lo..r.0`, the candidate code `r.1..r.2`.
pub fn split_value(v: &Vec<char>, lo: usize, hi: usize) -> (r: (usize, usize, usize))
    requires
        lo <= hi <= v.len(),
    ensures
        lo <= r.0 <= hi,
        lo <= r.1 <= r.2 <= hi,
        v@.subrange(lo as int, r.0 as int) == value_text(v@.subrange(lo as int, hi as int)),
        v@.subrange(r.1 as int, r.2 as int) == value_code(v@.subrange(lo as int, hi as int)),
{
    let ghost val = v@.subrange(lo as int, hi as int);
    let pat = vec![' ', '['];
    assert(pat@ =~= open_bracket());
    match rfind_in(v, lo, hi, &pat) {
        None => {
            assert(v@.subrange(hi as int, hi as int) =~= Seq::<char>::empty());
            (hi, hi, hi)
        },
        Some(i) => {
            let c_lo = lo + i + 2;
            assert(val.subrange(0, i as int) =~= v@.subrange(lo as int, lo + i));
            let mut b: usize = hi;
            while b > c_lo && v[b - 1] == ']'
                invariant
                    lo <= c_lo <= b <= hi <= v.len(),
                    strip_close(v@.subrange(c_lo as int, hi as int)) == strip_close(
                        v@.subrange(c_lo as int, b as int),
                    ),
                decreases b - c_lo,
            {
                assert(v@.subrange(c_lo as int, b as int).drop_last() =~= v@.subrange(
                    c_lo as int,
                    b - 1,
                ));
                b -= 1;
            }
            assert(val.subrange(i + 2, val.len() as int) =~= v@.subrange(c_lo as int, hi as int));
            (lo + i, c_lo, b)
        },
    }
}

proof fn lemma_dec_value_prefix(s: Seq<char>, k: int)
    requires
        0 <= k <= s.len(),
    ensures
        dec_value(s.subrange(0, k)) <= dec_value(s),
    decreases s.len(),
{
    if k < s.len() {
        assert(s.drop_last().subrange(0, k) =~= s.subrange(0, k));
        lemma_dec_value_prefix(s.drop_last(), k);
    } else {
        assert(s.subrange(0, k) =~= s);
    }
}

/// Reads `v` from `lo` up to `hi` as a `u64`, as `parse_u64_spec` says.
pub fn parse_u64(v: &Vec<char>, lo: usize, hi: usize) -> (r: Option<u64>)
    requires
        lo <= hi <= v.len(),
    ensures
        r == parse_u64_spec(v@.subrange(lo as int, hi as int)),
{
    let ghost s = v@.subrange(lo as int, hi as int);
    let start: usize = if lo < hi && v[lo] == '+' {
        lo + 1
    } else {
        lo
    };
    let ghost d = v@.subrange(start as int, hi as int);
    assert(unsigned_digits(s) =~= d);
    if start == hi {
        return None;
    }
    let mut k: usize = start;
    while k < hi
        invariant
            start <= k <= hi <= v.len(),
            s == v@.subrange(lo as int, hi as int),
            d == v@.subrange(start as int, hi as int),
            unsigned_digits(s) == d,
            forall|j: int| start <= j < k ==> is_dec_digit(#[trigger] v@[j]),
        decreases hi - k,
    {
        if !('0' <= v[k] && v[k] <= '9') {
            assert(!is_dec_digit(d[k - start]));
            return None;
        }
        k += 1;
    }
    assert(forall|i: int| 0 <= i < d.len() ==> is_dec_digit(#[trigger] d[i])) by {
        assert(forall|i: int| 0 <= i < d.len() ==> d[i] == v@[start + i]);
    }
    let mut acc: u64 = 0;
    let mut k: usize = start;
    while k < hi
        invariant
            start <= k <= hi <= v.len(),
            s == v@.subrange(lo as int, hi as int),
            d == v@.subrange(start as int, hi as int),
            unsigned_digits(s) == d,
            d.len() > 0,
            forall|i: int| 0 <= i < d.len() ==> is_dec_digit(#[trigger] d[i]),
            acc == dec_value(v@.subrange(start as int, k as int)),
        decreases hi - k,
    {
        let c = v[k];
        assert(is_dec_digit(d[k - start]));
        let dig: u64 = (c as u64) - ('0' as u64);
        let ghost next = v@.subrange(start as int, k + 1);
        assert(next.drop_last() =~= v@.subrange(start as int, k as int));
        assert(dec_value(next) == acc * 10 + dig);
        if acc > (u64::MAX - dig) / 10 {
            assert(acc * 10 + dig > u64::MAX) by (nonlinear_arith)
                requires
                    acc > (u64::MAX - dig) / 10,
                    dig < 10,
            ;
            proof {
                assert(d.subrange(0, k + 1 - start) =~= next);
                lemma_dec_value_prefix(d, k + 1 - start);
            }
            return None;
        }
        assert(acc * 10 + dig <= u64::MAX) by (nonlinear_arith)
            requires
                acc <= (u64::MAX - dig) / 10,
                dig < 10,
        ;
        acc = acc * 10 + dig;
        k += 1;
    }
    Some(acc)
}

/// The characters of each string of `v`.
pub open spec fn strings_view(v: Seq<String>) -> Seq<Seq<char>> {
    v.map_values(|s: String| s@)
}

proof fn lemma_strings_push(v: Seq<String>, x: String)
    ensures
        strings_view(v.push(x)) == strings_view(v).push(x@),
{
    assert(strings_view(v.push(x)) =~= strings_view(v).push(x@));
}

/// Reads the line held in `v` from `lo` up to `hi` into `rec`; the key of a
/// line that no field takes is appended to `unknown`.
pub fn parse_line(v: &Vec<char>, lo: usize, hi: usize, rec: &mut Pci, unknown: &mut Vec<String>)
    requires
        lo <= hi <= v.len(),
    ensures
        final(rec)@ == apply_line(old(rec)@, v@.subrange(lo as int, hi as int)),
        strings_view(final(unknown)@) == strings_view(old(unknown)@) + line_unknown(
            v@.subrange(lo as int, hi as int),
        ),
{
    let ghost line = v@.subrange(lo as int, hi as int);
    let colon = vec![':'];
    assert(colon@ =~= seq![':']);
    match find_in(v, lo, hi, &colon) {
        None => {
            assert(strings_view(unknown@) + line_unknown(line) =~= strings_view(unknown@));
        },
        Some(c) => {
            let key_hi = lo + c;
            assert(line.subrange(0, c as int) =~= v@.subrange(lo as int, key_hi as int));
            assert(line.subrange(c + 1, line.len() as int) =~= v@.subrange(key_hi + 1, hi as int));
            let (a, b) = trim_range(v, key_hi + 1, hi);
            let (t_hi, c_lo, c_hi) = split_value(v, a, b);
            let text = string_of(v, a, t_hi);
            let key = key_kind(v, lo, key_hi);
            if key != Key::Other {
                assert(strings_view(unknown@) + line_unknown(line) =~= strings_view(unknown@));
            }
            match key {
                Key::Slot => rec.slot = Some(text),
                Key::Class => {
                    rec.class = Some(text);
                    if let Ok(pc) = PciCode::from_range(v, c_lo, c_hi) {
                        rec.class_code = Some(pc);
                    }
                },
                Key::Vendor => {
                    rec.vendor = Some(text);
                    if let Ok(pc) = PciCode::from_range(v, c_lo, c_hi) {
                        rec.vendor_code = Some(pc);
                    }
                },
                Key::SVendor => {
                    rec.sub_vendor = Some(text);
                    if let Ok(pc) = PciCode::from_range(v, c_lo, c_hi) {
                        rec.sub_vendor_code = Some(pc);
                    }
                },
                Key::Device => {
                    rec.device = Some(text);
                    if let Ok(pc) = PciCode::from_range(v, c_lo, c_hi) {
                        rec.device_code = Some(pc);
                    }
                },
                Key::SDevice => {
                    rec.sub_device = Some(text);
                    if let Ok(pc) = PciCode::from_range(v, c_lo, c_hi) {
                        rec.sub_device_code = Some(pc);
                    }
                },
                Key::Rev => rec.revision = parse_u64(v, a, t_hi),
                Key::ProgIf => rec.programming_interface = Some(text),
                Key::Other => {
                    let k = string_of(v, lo, key_hi);
                    proof {
                        lemma_strings_push(unknown@, k);
                    }
                    unknown.push(k);
                },
            }
        },
    }
}

/// The record `r` after the lines `ls` have been read into it, in order.
pub open spec fn apply_lines(r: PciView, ls: Seq<Seq<char>>) -> PciView
    decreases ls.len(),
{
    if ls.len() == 0 {
        r
    } else {
        apply_lines(apply_line(r, ls[0]), ls.drop_first())
    }
}

/// The unknown keys of the lines `ls`, in order.
pub open spec fn lines_unknown(ls: Seq<Seq<char>>) -> Seq<Seq<char>>
    decreases ls.len(),
{
    if ls.len() == 0 {
        Seq::empty()
    } else {
        line_unknown(ls[0]) + lines_unknown(ls.drop_first())
    }
}

/// The line separator.
pub open spec fn line_sep() -> Seq<char> {
    seq!['\n']
}

/// The lines of a block, once the block is trimmed.
pub open spec fn block_lines(block: Seq<char>) -> Seq<Seq<char>> {
    split(trim(block), line_sep())
}

/// The record that a block describes.
pub open spec fn parse_block_spec(block: Seq<char>) -> PciView {
    apply_lines(empty_view(), block_lines(block))
}

/// The unknown keys of a block, in order.
pub open spec fn block_unknown(block: Seq<char>) -> Seq<Seq<char>> {
    lines_unknown(block_lines(block))
}

proof fn lemma_lines_cons(r: PciView, x: Seq<char>, rest: Seq<Seq<char>>)
    ensures
        apply_lines(r, seq![x] + rest) == apply_lines(apply_line(r, x), rest),
        lines_unknown(seq![x] + rest) == line_unknown(x) + lines_unknown(rest),
{
    assert((seq![x] + rest).drop_first() =~= rest);
}

/// Reads the block held in `v` from `lo` up to `hi` into a record; the keys
/// that no field takes are appended to `unknown`, in order.
pub fn parse_block(v: &Vec<char>, lo: usize, hi: usize, unknown: &mut Vec<String>) -> (r: Pci)
    requires
        lo <= hi <= v.len(),
    ensures
        r@ == parse_block_spec(v@.subrange(lo as int, hi as int)),
        strings_view(final(unknown)@) == strings_view(old(unknown)@) + block_unknown(
            v@.subrange(lo as int, hi as int),
        ),
{
    let (a, b) = trim_range(v, lo, hi);
    let ghost t = v@.subrange(a as int, b as int);
    let ghost ls = split(t, line_sep());
    let ghost w0 = strings_view(unknown@);
    let nl = vec!['\n'];
    assert(nl@ =~= line_sep());
    let mut rec = Pci::new();
    let mut start: usize = a;
    let mut i: usize = a;
    while i < b
        invariant
            lo <= a <= start <= i <= b <= hi <= v.len(),
            t == v@.subrange(a as int, b as int),
            nl@ == line_sep(),
            apply_lines(empty_view(), ls) == apply_lines(
                rec@,
                split_from(t, line_sep(), start - a, i - a),
            ),
            w0 + lines_unknown(ls) == strings_view(unknown@) + lines_unknown(
                split_from(t, line_sep(), start - a, i - a),
            ),
        decreases b - i,
    {
        if occurs(v, a, b, &nl, i) {
            let ghost piece = t.subrange(start - a, i - a);
            let ghost rest = split_from(t, line_sep(), i + 1 - a, i + 1 - a);
            assert(piece =~= v@.subrange(start as int, i as int));
            proof {
                lemma_lines_cons(rec@, piece, rest);
            }
            let ghost u = strings_view(unknown@);
            parse_line(v, start, i, &mut rec, unknown);
            assert(u + (line_unknown(piece) + lines_unknown(rest)) =~= strings_view(unknown@)
                + lines_unknown(rest));
            start = i + 1;
        }
        i += 1;
    }
    let ghost piece = t.subrange(start - a, i - a);
    assert(piece =~= v@.subrange(start as int, b as int));
    proof {
        lemma_lines_cons(rec@, piece, Seq::empty());
        assert(seq![piece] + Seq::<Seq<char>>::empty() =~= seq![piece]);
    }
    let ghost u = strings_view(unknown@);
    parse_line(v, start, b, &mut rec, unknown);
    assert(u + (line_unknown(piece) + Seq::empty()) =~= strings_view(unknown@));
    rec
}

} // verus!
