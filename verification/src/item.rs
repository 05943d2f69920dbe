use vstd::prelude::*;
use vstd::utf8::encode_utf8;

verus! {

/// Number of bytes reserved up front for a freshly assembled log line.
pub const NORMAL_LOG_SIZE: usize = 64;

/// Width of the field that `LogItem::u64` writes: enough for the twenty
/// decimal digits of the largest `u64`.
pub const U64_FIELD_WIDTH: usize = 20;

/// The ASCII space that pads a number field on the left.
pub const PAD: u8 = 32;

/// The ASCII digit `0`; digit `d` is written as `DIGIT_ZERO + d`.
pub const DIGIT_ZERO: u8 = 48;

/// The decimal digits of `n`, most significant first, as ASCII bytes.
/// Zero has no digits at all.
pub open spec fn decimal_digits(n: nat) -> Seq<u8>
    decreases n,
{
    if n == 0 {
        Seq::empty()
    } else {
        decimal_digits(n / 10).push((DIGIT_ZERO + n % 10) as u8)
    }
}

/// `k` padding spaces.
pub open spec fn spaces(k: nat) -> Seq<u8> {
    Seq::new(k, |i: int| PAD)
}

/// The field that `LogItem::u64` appends for `n`: the decimal digits of `n`,
/// right-aligned in `U64_FIELD_WIDTH` bytes and padded on the left with spaces.
pub open spec fn u64_field(n: u64) -> Seq<u8> {
    spaces((U64_FIELD_WIDTH - decimal_digits(n as nat).len()) as nat) + decimal_digits(n as nat)
}

/// The byte that `LogItem::char` appends for `ch`: the low eight bits of its
/// code point.
pub open spec fn char_byte(ch: char) -> u8 {
    ((ch as u32) % 256) as u8
}

/// The byte written for a character is the low eight bits of its code point:
/// it differs from the code point by a multiple of 256, and an ASCII character
/// (code point below 128) is written as itself.
pub proof fn lemma_char_byte_is_low_bits(ch: char)
    ensures
        char_byte(ch) as int == (ch as u32) as int % 256,
        ((ch as u32) as int - char_byte(ch) as int) % 256 == 0,
        (ch as u32) < 128 ==> char_byte(ch) as u32 == ch as u32,
{
}

/// `10` to the power `k`.
pub open spec fn pow10(k: nat) -> nat
    decreases k,
{
    if k == 0 {
        1
    } else {
        10 * pow10((k - 1) as nat)
    }
}

/// A number below `10^k` has at most `k` decimal digits.
pub proof fn lemma_digits_len_bound(n: nat, k: nat)
    requires
        n < pow10(k),
    ensures
        decimal_digits(n).len() <= k,
    decreases k,
{
    if n != 0 {
        let p = pow10((k - 1) as nat);
        assert(n / 10 < p) by (nonlinear_arith)
            requires
                n < 10 * p,
        ;
        lemma_digits_len_bound(n / 10, (k - 1) as nat);
    }
}

/// Every `u64` has at most `U64_FIELD_WIDTH` decimal digits.
pub proof fn lemma_u64_digits_fit(n: u64)
    ensures
        decimal_digits(n as nat).len() <= U64_FIELD_WIDTH,
{
    reveal_with_fuel(pow10, 21);
    assert(pow10(20) == 100000000000000000000nat);
    lemma_digits_len_bound(n as nat, 20);
}

/// Whether `b` is an ASCII decimal digit.
pub open spec fn is_digit(b: u8) -> bool {
    DIGIT_ZERO <= b < DIGIT_ZERO + 10
}

/// The number that a string of ASCII decimal digits stands for, most
/// significant digit first; the empty string stands for zero.
pub open spec fn digits_value(digits: Seq<u8>) -> nat
    decreases digits.len(),
{
    if digits.len() == 0 {
        0
    } else {
        digits_value(digits.drop_last()) * 10 + (digits.last() - DIGIT_ZERO) as nat
    }
}

/// `field` without its leading padding spaces.
pub open spec fn strip_padding(field: Seq<u8>) -> Seq<u8>
    decreases field.len(),
{
    if field.len() > 0 && field[0] == PAD {
        strip_padding(field.drop_first())
    } else {
        field
    }
}

/// The decimal digits of `n` are digits, do not start with `0`, and stand for `n`.
pub proof fn lemma_decimal_digits(n: nat)
    ensures
        forall|i: int| 0 <= i < decimal_digits(n).len() ==> is_digit(#[trigger] decimal_digits(n)[i]),
        decimal_digits(n).len() > 0 ==> decimal_digits(n)[0] != DIGIT_ZERO,
        digits_value(decimal_digits(n)) == n,
    decreases n,
{
    if n != 0 {
        lemma_decimal_digits(n / 10);
        let d = decimal_digits(n);
        assert(d.drop_last() =~= decimal_digits(n / 10));
        if n / 10 == 0 {
            assert(d.len() == 1);
        } else {
            assert(d[0] == decimal_digits(n / 10)[0]);
        }
    }
}

/// Padding in front of a string that does not itself start with a space is
/// removed exactly.
pub proof fn lemma_strip_padding(k: nat, rest: Seq<u8>)
    requires
        rest.len() == 0 || rest[0] != PAD,
    ensures
        strip_padding(spaces(k) + rest) == rest,
    decreases k,
{
    if k == 0 {
        assert(spaces(k) + rest =~= rest);
    } else {
        assert((spaces(k) + rest).drop_first() =~= spaces((k - 1) as nat) + rest);
        lemma_strip_padding((k - 1) as nat, rest);
    }
}

/// The field that `LogItem::u64` writes for `n` reads back as `n`: it is
/// always `U64_FIELD_WIDTH` bytes long, and after its padding spaces come only
/// decimal digits, without a leading zero, that stand for `n`.
pub proof fn lemma_u64_field_reads_back(n: u64)
    ensures
        u64_field(n).len() == U64_FIELD_WIDTH,
        forall|i: int|
            0 <= i < strip_padding(u64_field(n)).len() ==> is_digit(
                #[trigger] strip_padding(u64_field(n))[i],
            ),
        strip_padding(u64_field(n)).len() > 0 ==> strip_padding(u64_field(n))[0] != DIGIT_ZERO,
        digits_value(strip_padding(u64_field(n))) == n,
{
    let d = decimal_digits(n as nat);
    lemma_u64_digits_fit(n);
    lemma_decimal_digits(n as nat);
    if d.len() > 0 {
        assert(is_digit(d[0]));
    }
    lemma_strip_padding((U64_FIELD_WIDTH - d.len()) as nat, d);
}

/// Different numbers get different fields from `LogItem::u64`.
pub proof fn lemma_u64_field_injective(a: u64, b: u64)
    requires
        u64_field(a) == u64_field(b),
    ensures
        a == b,
{
    lemma_u64_field_reads_back(a);
    lemma_u64_field_reads_back(b);
}

/// Whether `s` sorts before `t` byte by byte: at the first position where they
/// differ, `s` has the smaller byte. (The strings compared here are equally
/// long, so a prefix never has to be ordered.)
pub open spec fn bytes_lt(s: Seq<u8>, t: Seq<u8>) -> bool {
    exists|i: int|
        0 <= i < s.len() && i < t.len() && s.subrange(0, i) == t.subrange(0, i) && #[trigger] s[i]
            < t[i]
}

/// The last `w` places of `n` as `LogItem::u64` lays them out: place by place
/// from the right, the digit of that place, or a space once no digits are left.
pub open spec fn padded_digits(n: nat, w: nat) -> Seq<u8>
    decreases w,
{
    if w == 0 {
        Seq::empty()
    } else {
        padded_digits(n / 10, (w - 1) as nat).push(
            if n == 0 {
                PAD
            } else {
                (DIGIT_ZERO + n % 10) as u8
            },
        )
    }
}

/// Laying out the places one by one gives the digits padded on the left.
proof fn lemma_padded_digits(n: nat, w: nat)
    requires
        decimal_digits(n).len() <= w,
    ensures
        padded_digits(n, w) == spaces((w - decimal_digits(n).len()) as nat) + decimal_digits(n),
    decreases w,
{
    if w == 0 {
        assert(padded_digits(n, w) =~= spaces(0) + decimal_digits(n));
    } else if n == 0 {
        lemma_padded_digits(0, (w - 1) as nat);
        assert(padded_digits(n, w) =~= spaces(w) + decimal_digits(n));
    } else {
        lemma_padded_digits(n / 10, (w - 1) as nat);
        assert(padded_digits(n, w) =~= spaces((w - decimal_digits(n).len()) as nat) + decimal_digits(
            n,
        ));
    }
}

/// Two equally long strings extended by one byte each sort as their first
/// parts do, or, where those are equal, as the added bytes do.
proof fn lemma_bytes_lt_push(s: Seq<u8>, t: Seq<u8>, x: u8, y: u8)
    requires
        s.len() == t.len(),
    ensures
        bytes_lt(s.push(x), t.push(y)) <==> bytes_lt(s, t) || (s == t && x < y),
{
    let sx = s.push(x);
    let ty = t.push(y);
    if bytes_lt(s, t) {
        let i = choose|i: int|
            0 <= i < s.len() && i < t.len() && s.subrange(0, i) == t.subrange(0, i) && #[trigger] s[i]
                < t[i];
        assert(sx.subrange(0, i) =~= s.subrange(0, i));
        assert(ty.subrange(0, i) =~= t.subrange(0, i));
        assert(sx[i] < ty[i]);
    }
    if s == t && x < y {
        let i = s.len() as int;
        assert(sx.subrange(0, i) =~= s);
        assert(ty.subrange(0, i) =~= t);
        assert(sx[i] < ty[i]);
    }
    if bytes_lt(sx, ty) {
        let i = choose|i: int|
            0 <= i < sx.len() && i < ty.len() && sx.subrange(0, i) == ty.subrange(0, i)
                && #[trigger] sx[i] < ty[i];
        if i < s.len() {
            assert(s.subrange(0, i) =~= sx.subrange(0, i));
            assert(t.subrange(0, i) =~= ty.subrange(0, i));
            assert(s[i] < t[i]);
        } else {
            assert(s =~= sx.subrange(0, i));
            assert(t =~= ty.subrange(0, i));
        }
    }
}

/// A common prefix does not change how two equally long strings sort.
proof fn lemma_bytes_lt_prefix(p: Seq<u8>, s: Seq<u8>, t: Seq<u8>)
    requires
        s.len() == t.len(),
    ensures
        bytes_lt(p + s, p + t) <==> bytes_lt(s, t),
{
    let ps = p + s;
    let pt = p + t;
    if bytes_lt(s, t) {
        let i = choose|i: int|
            0 <= i < s.len() && i < t.len() && s.subrange(0, i) == t.subrange(0, i) && #[trigger] s[i]
                < t[i];
        let j = p.len() + i;
        assert(ps.subrange(0, j) =~= p + s.subrange(0, i));
        assert(pt.subrange(0, j) =~= p + t.subrange(0, i));
        assert(ps[j] < pt[j]);
    }
    if bytes_lt(ps, pt) {
        let j = choose|j: int|
            0 <= j < ps.len() && j < pt.len() && ps.subrange(0, j) == pt.subrange(0, j)
                && #[trigger] ps[j] < pt[j];
        if j < p.len() {
            assert(ps[j] == p[j]);
            assert(pt[j] == p[j]);
        } else {
            let i = j - p.len();
            assert(s.subrange(0, i) =~= ps.subrange(p.len() as int, j));
            assert(t.subrange(0, i) =~= pt.subrange(p.len() as int, j));
            assert(ps.subrange(p.len() as int, j) =~= ps.subrange(0, j).subrange(
                p.len() as int,
                j,
            ));
            assert(pt.subrange(p.len() as int, j) =~= pt.subrange(0, j).subrange(
                p.len() as int,
                j,
            ));
            assert(s[i] < t[i]);
        }
    }
}

/// Numbers laid out in the same number of places sort byte by byte as they
/// do by value, since a space sorts before every digit.
proof fn lemma_padded_digits_order(a: nat, b: nat, w: nat)
    ensures
        padded_digits(a, w).len() == w,
        a < pow10(w) && b < pow10(w) ==> (bytes_lt(padded_digits(a, w), padded_digits(b, w))
            <==> a < b),
    decreases w,
{
    if w > 0 {
        let v = (w - 1) as nat;
        lemma_padded_digits_order(a / 10, b / 10, v);
        lemma_padded_digits_order(b / 10, a / 10, v);
        let ca: u8 = if a == 0 {
            PAD
        } else {
            (DIGIT_ZERO + a % 10) as u8
        };
        let cb: u8 = if b == 0 {
            PAD
        } else {
            (DIGIT_ZERO + b % 10) as u8
        };
        lemma_bytes_lt_push(padded_digits(a / 10, v), padded_digits(b / 10, v), ca, cb);
        if a < pow10(w) && b < pow10(w) {
            let p = pow10(v);
            assert(a / 10 < p && b / 10 < p) by (nonlinear_arith)
                requires
                    a < 10 * p,
                    b < 10 * p,
            ;
            if a / 10 == b / 10 {
                assert(ca < cb <==> a < b);
            }
        }
    }
}

/// The fields that `LogItem::u64` writes sort byte by byte in numeric order,
/// also after the same earlier bytes of a log line: `prefix` followed by the
/// field of `a` sorts before `prefix` followed by the field of `b` exactly
/// when `a < b`, and the two are equal exactly when `a == b`.
pub proof fn lemma_u64_field_order(prefix: Seq<u8>, a: u64, b: u64)
    ensures
        bytes_lt(prefix + u64_field(a), prefix + u64_field(b)) <==> a < b,
        prefix + u64_field(a) == prefix + u64_field(b) <==> a == b,
{
    lemma_u64_digits_fit(a);
    lemma_u64_digits_fit(b);
    lemma_padded_digits(a as nat, 20);
    lemma_padded_digits(b as nat, 20);
    reveal_with_fuel(pow10, 21);
    assert(pow10(20) == 100000000000000000000nat);
    lemma_padded_digits_order(a as nat, b as nat, 20);
    lemma_bytes_lt_prefix(prefix, u64_field(a), u64_field(b));
    if prefix + u64_field(a) == prefix + u64_field(b) {
        assert(u64_field(a) =~= (prefix + u64_field(a)).subrange(
            prefix.len() as int,
            prefix.len() + 20int,
        ));
        assert(u64_field(b) =~= (prefix + u64_field(b)).subrange(
            prefix.len() as int,
            prefix.len() + 20int,
        ));
        lemma_u64_field_injective(a, b);
    }
}

/// A log line under construction: the bytes it will contribute to the log.
pub struct LogItem {
    content: Vec<u8>,
}

impl View for LogItem {
    type V = Seq<u8>;

    closed spec fn view(&self) -> Seq<u8> {
        self.content@
    }
}

impl LogItem {
    /// An empty log line.
    pub fn new() -> (item: Self)
        ensures
            item@ == Seq::<u8>::empty(),
    {
        LogItem { content: Vec::with_capacity(NORMAL_LOG_SIZE) }
    }

    /// Gives up the item's bytes, to be added to the log.
    pub(crate) fn into_content(self) -> (bytes: Vec<u8>)
        ensures
            bytes@ == self@,
    {
        self.content
    }

    /// Appends `n` in decimal, right-aligned in a field of `U64_FIELD_WIDTH`
    /// bytes padded with spaces. Zero has no digits, so it appends a field of
    /// spaces only.
    pub fn u64(&mut self, n: u64) -> (r: &mut Self)
        ensures
            r@ == old(self)@ + u64_field(n),
            r@.len() == old(self)@.len() + U64_FIELD_WIDTH,
            *final(self) == *final(r),
    {
        let base = self.content.len();
        let mut k: usize = 0;
        while k < U64_FIELD_WIDTH
            invariant
                k <= U64_FIELD_WIDTH,
                base == old(self)@.len(),
                self.content@ == old(self)@ + spaces(k as nat),
            decreases U64_FIELD_WIDTH - k,
        {
            self.content.push(PAD);
            k = k + 1;
        }
        let end: usize = self.content.len();
        let mut pos: usize = end;
        let mut m: u64 = n;
        proof {
            lemma_u64_digits_fit(n);
            assert(self.content@.subrange(pos as int, end as int) =~= Seq::<u8>::empty());
            assert(decimal_digits(n as nat) =~= decimal_digits(m as nat) + Seq::<u8>::empty());
        }
        while m != 0
            invariant
                end == base + U64_FIELD_WIDTH,
                base == old(self)@.len(),
                base <= pos <= end,
                self.content@.len() == end,
                self.content@.subrange(0, base as int) == old(self)@,
                forall|i: int| base <= i < pos ==> self.content@[i] == PAD,
                decimal_digits(n as nat) == decimal_digits(m as nat) + self.content@.subrange(
                    pos as int,
                    end as int,
                ),
                decimal_digits(m as nat).len() <= pos - base,
            decreases m,
        {
            let ghost old_content = self.content@;
            let ghost old_pos = pos;
            pos = pos - 1;
            let digit: u8 = DIGIT_ZERO + (m % 10) as u8;
            self.content.set(pos, digit);
            proof {
                assert(decimal_digits(m as nat) == decimal_digits((m / 10) as nat).push(digit));
                assert(self.content@.subrange(pos as int, end as int) =~= seq![digit]
                    + old_content.subrange(old_pos as int, end as int));
                assert(self.content@.subrange(0, base as int) =~= old_content.subrange(
                    0,
                    base as int,
                ));
                assert(decimal_digits(n as nat) =~= decimal_digits((m / 10) as nat)
                    + self.content@.subrange(pos as int, end as int));
            }
            m = m / 10;
        }
        proof {
            let d = decimal_digits(n as nat);
            assert(d == self.content@.subrange(pos as int, end as int));
            assert(self.content@ =~= old(self)@ + u64_field(n));
        }
        self
    }

    /// Appends the UTF-8 bytes of `s`.
    pub fn str(&mut self, s: &str) -> (r: &mut Self)
        ensures
            r@ == old(self)@ + encode_utf8(s@),
            *final(self) == *final(r),
    {
        let bytes = s.as_bytes();
        self.content.extend_from_slice(bytes);
        assert(self.content@ =~= old(self)@ + encode_utf8(s@));
        self
    }

    /// Appends one byte for `ch`: the low eight bits of its code point, which
    /// is the character itself for ASCII.
    pub fn char(&mut self, ch: char) -> (r: &mut Self)
        ensures
            r@ == old(self)@.push(char_byte(ch)),
            r@ == old(self)@.push(((ch as u32) % 256) as u8),
            *final(self) == *final(r),
    {
        let code: u32 = ch as u32;
        let byte: u8 = (code % 256) as u8;
        self.content.push(byte);
        self
    }
}

/// Turns a `String` into a vector of its UTF-8 bytes, with room for at least
/// `NORMAL_LOG_SIZE` bytes.
fn string_into_bytes(s: String) -> (bytes: Vec<u8>)
    ensures
        bytes@ == encode_utf8(s@),
{
    let text: &str = s.as_str();
    let utf8: &[u8] = text.as_bytes();
    let len = utf8.len();
    let capacity = if len < NORMAL_LOG_SIZE {
        NORMAL_LOG_SIZE
    } else {
        len
    };
    let mut bytes: Vec<u8> = Vec::with_capacity(capacity);
    bytes.extend_from_slice(utf8);
    assert(bytes@ =~= encode_utf8(s@));
    bytes
}

impl Default for LogItem {
    /// An empty log line, as `LogItem::new` makes it.
    fn default() -> (item: Self)
        ensures
            item@ == Seq::<u8>::empty(),
    {
        Self::new()
    }
}

impl From<String> for LogItem {
    /// A log line holding the UTF-8 bytes of `s`.
    fn from(s: String) -> (item: Self)
        ensures
            item@ == encode_utf8(s@),
    {
        LogItem { content: string_into_bytes(s) }
    }
}

/// `LogItem::from` pins down the bytes of the item it returns (see its own
/// `ensures`), not the whole value: the buffer's spare capacity is left open,
/// so the item is not claimed equal to `from_spec`.
impl vstd::std_specs::convert::FromSpecImpl<String> for LogItem {
    open spec fn obeys_from_spec() -> bool {
        false
    }

    open spec fn from_spec(s: String) -> LogItem {
        choose|item: LogItem| item@ == encode_utf8(s@)
    }
}

} // verus!
