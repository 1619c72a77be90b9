//! Decimal formatting, slice helpers and the debug console.

use vstd::prelude::*;
use vstd::string::StringSliceAdditionalSpecFns;

verus! {

pub const ZERO_DIGIT: u8 = 48;

pub const MINUS_SIGN: u8 = 45;

pub const SPACE_BYTE: u8 = 32;

/// The decimal digits of `n`, most significant first ("0" for zero).
pub open spec fn decimal(n: nat) -> Seq<u8>
    decreases n,
{
    if n < 10 {
        seq![(ZERO_DIGIT + n) as u8]
    } else {
        decimal(n / 10).push((ZERO_DIGIT + n % 10) as u8)
    }
}

pub open spec fn abs(x: int) -> nat {
    if x < 0 {
        (-x) as nat
    } else {
        x as nat
    }
}

/// `x` written in decimal right-aligned in `len` bytes, with `pad` before it.
/// When the sign does not fit it is left out; when the digits do not fit
/// only the last `len` are kept.
pub open spec fn right_aligned(len: nat, x: int, pad: u8) -> Seq<u8> {
    let d = decimal(abs(x));
    let s = if x < 0 {
        seq![MINUS_SIGN] + d
    } else {
        d
    };
    if s.len() <= len {
        Seq::new((len - s.len()) as nat, |i: int| pad) + s
    } else {
        d.subrange(d.len() - len, d.len() as int)
    }
}

proof fn lemma_decimal_len(n: nat)
    ensures
        decimal(n).len() >= 1,
        n < 10 <==> decimal(n).len() == 1,
    decreases n,
{
    if n >= 10 {
        lemma_decimal_len(n / 10);
    }
}

/// Writes `x` in decimal right-aligned in `dst`, after filling it with `padding`.
pub fn itoa10_right(dst: &mut [u8], x: i32, padding: u8)
    requires
        x > i32::MIN,
        old(dst)@.len() >= 1,
    ensures
        final(dst)@ == right_aligned(old(dst)@.len(), x as int, padding),
{
    fill(dst, padding);
    let len = dst.len();
    let mut y: i32 = if x < 0 {
        -x
    } else {
        x
    };
    let ghost d = decimal(abs(x as int));
    let mut idx: usize = len;
    while idx > 0 && (y > 0 || idx == len)
        invariant
            dst@.len() == len,
            len >= 1,
            idx <= len,
            0 <= y,
            forall|i: int| 0 <= i < idx ==> #[trigger] dst@[i] == padding,
            idx == len ==> y == abs(x as int),
            y > 0 || idx == len ==> d == decimal(y as nat) + dst@.subrange(idx as int, len as int),
            y == 0 && idx < len ==> d == dst@.subrange(idx as int, len as int),
        decreases idx,
    {
        let ghost y0 = y;
        let ghost before = dst@;
        idx = idx - 1;
        let b = (y % 10) as u8 + ZERO_DIGIT;
        dst[idx] = b;
        y = y / 10;
        proof {
            lemma_decimal_len(y0 as nat);
            let tail = dst@.subrange(idx as int, len as int);
            assert(tail =~= seq![b] + before.subrange(idx + 1, len as int));
            if y0 >= 10 {
                assert(decimal(y0 as nat) == decimal(y as nat).push(b));
                assert(d =~= decimal(y as nat) + tail);
            } else {
                assert(decimal(y0 as nat) == seq![b]);
                assert(d =~= tail);
            }
        }
    }
    proof {
        lemma_decimal_len(abs(x as int));
        lemma_decimal_len(y as nat);
    }
    if y == 0 && x < 0 && idx > 0 {
        dst[idx - 1] = MINUS_SIGN;
        proof {
            assert(dst@ =~= Seq::new((idx - 1) as nat, |i: int| padding) + (seq![MINUS_SIGN] + d));
        }
    } else {
        proof {
            if y > 0 {
                assert(idx == 0);
                assert(dst@.subrange(0, len as int) =~= dst@);
                let dy = decimal(y as nat);
                assert(d == dy + dst@);
                assert(d.len() == dy.len() + len);
                assert(d.subrange(dy.len() as int, d.len() as int) =~= dst@);
            } else if idx == 0 {
                assert(dst@.subrange(0, len as int) =~= dst@);
                assert(d == dst@);
                assert(d.subrange(0, d.len() as int) =~= dst@);
                assert(Seq::new(0, |i: int| padding) + d =~= d);
            } else {
                assert(dst@ =~= Seq::new(idx as nat, |i: int| padding) + d);
            }
        }
    }
}

/// Writes the decimal digits of `x` at the start of `dst`; returns how many.
pub fn itoa10_left(dst: &mut [u8], x: i32) -> (n: usize)
    requires
        x >= 0,
        old(dst)@.len() >= decimal(x as nat).len(),
    ensures
        n == decimal(x as nat).len(),
        final(dst)@.subrange(0, n as int) == decimal(x as nat),
        final(dst)@.subrange(n as int, old(dst)@.len() as int) == old(dst)@.subrange(
            n as int,
            old(dst)@.len() as int,
        ),
        final(dst)@.len() == old(dst)@.len(),
{
    let ghost d = decimal(x as nat);
    let cap = dst.len();
    let mut n: usize = 1;
    let mut y: i32 = x;
    while y >= 10
        invariant
            0 <= y,
            1 <= n,
            d.len() == n - 1 + decimal(y as nat).len(),
            d.len() <= cap,
        decreases y,
    {
        proof {
            lemma_decimal_len(y as nat);
            lemma_decimal_len((y / 10) as nat);
        }
        y = y / 10;
        n = n + 1;
    }
    proof {
        lemma_decimal_len(y as nat);
    }
    let mut i: usize = n;
    y = x;
    while i > 0
        invariant
            i <= n,
            n == d.len(),
            n <= dst@.len(),
            dst@.len() == old(dst)@.len(),
            0 <= y,
            i > 0 ==> y > 0 || (x == 0 && i == n),
            i > 0 ==> decimal(y as nat).len() == i,
            i > 0 ==> d == decimal(y as nat) + dst@.subrange(i as int, n as int),
            i == 0 ==> d == dst@.subrange(0, n as int),
            forall|j: int| n <= j < dst@.len() ==> #[trigger] dst@[j] == old(dst)@[j],
        decreases i,
    {
        let ghost y0 = y;
        let ghost before = dst@;
        i = i - 1;
        let b = (y % 10) as u8 + ZERO_DIGIT;
        dst[i] = b;
        y = y / 10;
        proof {
            lemma_decimal_len(y0 as nat);
            let tail = dst@.subrange(i as int, n as int);
            assert(tail =~= seq![b] + before.subrange(i + 1, n as int));
            if y0 >= 10 {
                lemma_decimal_len(y as nat);
                assert(decimal(y0 as nat) == decimal(y as nat).push(b));
                assert(d =~= decimal(y as nat) + tail);
            } else {
                assert(decimal(y0 as nat) == seq![b]);
                assert(d =~= tail);
            }
        }
    }
    assert(dst@.subrange(n as int, dst@.len() as int) =~= old(dst)@.subrange(
        n as int,
        old(dst)@.len() as int,
    ));
    n
}

pub fn usize(x: i32) -> (r: usize)
    requires
        x >= 0,
    ensures
        r == x,
{
    x as usize
}

pub fn i32(x: usize) -> (r: i32)
    requires
        x <= i32::MAX,
    ensures
        r == x,
{
    x as i32
}

/// Sets every element of `s` to `t`.
pub fn fill<T: Copy>(s: &mut [T], t: T)
    ensures
        final(s)@ == Seq::new(old(s)@.len(), |i: int| t),
{
    let n = s.len();
    let mut i: usize = 0;
    while i < n
        invariant
            s@.len() == n,
            n == old(s)@.len(),
            i <= n,
            forall|j: int| 0 <= j < i ==> #[trigger] s@[j] == t,
        decreases n - i,
    {
        s[i] = t;
        i = i + 1;
    }
    assert(s@ =~= Seq::new(old(s)@.len(), |i: int| t));
}

/// Copies `src` over `dst`, of the same length.
pub fn copy_exact<T: Copy>(dst: &mut [T], src: &[T])
    requires
        old(dst)@.len() == src@.len(),
    ensures
        final(dst)@ == src@,
{
    let n = src.len();
    copyn(dst, src, n);
    assert(dst@ =~= src@);
}

/// Copies as much of `src` as fits at the start of `dst`.
pub fn copy<T: Copy>(dst: &mut [T], src: &[T])
    ensures
        ({
            let n = if old(dst)@.len() <= src@.len() {
                old(dst)@.len()
            } else {
                src@.len()
            };
            final(dst)@ == src@.subrange(0, n as int) + old(dst)@.subrange(
                n as int,
                old(dst)@.len() as int,
            )
        }),
{
    let n = if dst.len() <= src.len() {
        dst.len()
    } else {
        src.len()
    };
    copyn(dst, src, n);
}

/// Copies the first `n` elements of `src` to the start of `dst`.
pub fn copyn<T: Copy>(dst: &mut [T], src: &[T], n: usize)
    requires
        n <= old(dst)@.len(),
        n <= src@.len(),
    ensures
        final(dst)@ == src@.subrange(0, n as int) + old(dst)@.subrange(
            n as int,
            old(dst)@.len() as int,
        ),
{
    let mut i: usize = 0;
    while i < n
        invariant
            n <= src@.len(),
            n <= old(dst)@.len(),
            dst@.len() == old(dst)@.len(),
            i <= n,
            forall|j: int| 0 <= j < i ==> #[trigger] dst@[j] == src@[j],
            forall|j: int| n <= j < dst@.len() ==> #[trigger] dst@[j] == old(dst)@[j],
        decreases n - i,
    {
        dst[i] = src[i];
        i = i + 1;
    }
    assert(dst@ =~= src@.subrange(0, n as int) + old(dst)@.subrange(n as int, old(dst)@.len() as int));
}

/// The first `l` elements of `s` (all of them when it is shorter).
pub fn clamp<T>(s: &[T], l: usize) -> (r: &[T])
    ensures
        r@ == s@.subrange(0, if l <= s@.len() { l as int } else { s@.len() as int }),
{
    let m = if l <= s.len() {
        l
    } else {
        s.len()
    };
    &s[0..m]
}

/// `s` without its first `o` elements (empty when it is shorter).
pub fn shift<T>(s: &[T], o: usize) -> (r: &[T])
    ensures
        r@ == s@.subrange(if o <= s@.len() { o as int } else { s@.len() as int }, s@.len() as int),
{
    let m = if o <= s.len() {
        o
    } else {
        s.len()
    };
    &s[m..s.len()]
}

/// At most `len` elements of `s` from `offset` on.
pub fn subslice<T>(s: &[T], offset: usize, len: usize) -> (r: &[T])
    ensures
        ({
            let a = if offset <= s@.len() {
                offset as int
            } else {
                s@.len() as int
            };
            let b = if a + len <= s@.len() {
                a + len
            } else {
                s@.len() as int
            };
            r@ == s@.subrange(a, b)
        }),
{
    let r = clamp(shift(s, offset), len);
    assert(r@ =~= s@.subrange(
        if offset <= s@.len() { offset as int } else { s@.len() as int },
        if (if offset <= s@.len() { offset as int } else { s@.len() as int }) + len <= s@.len() {
            (if offset <= s@.len() { offset as int } else { s@.len() as int }) + len
        } else {
            s@.len() as int
        },
    ));
    r
}


/// `b` cut or padded with spaces to `w` bytes.
pub open spec fn padded(b: Seq<u8>, w: int) -> Seq<u8> {
    Seq::new(w as nat, |j: int| if j < b.len() { b[j] } else { SPACE_BYTE })
}

/// A ring of fixed-width text lines for debug messages.
pub struct Debugconsole {
    pub width: i32,
    pub height: i32,
    pub next_entry: i32,
    pub text: Vec<u8>,
}

proof fn lemma_row_in_grid(w: int, h: int, r: int)
    requires
        0 < w,
        0 <= r < h,
    ensures
        0 <= w * r,
        w * r + w <= w * h,
{
    assert(0 <= w * r) by (nonlinear_arith)
        requires
            0 < w,
            0 <= r,
    ;
    assert(w * r + w <= w * h) by (nonlinear_arith)
        requires
            0 < w,
            r + 1 <= h,
    ;
}

impl Debugconsole {
    pub open spec fn wf(&self) -> bool {
        &&& 0 < self.width
        &&& 0 < self.height
        &&& self.text@.len() == self.width * self.height
        &&& 0 <= self.next_entry
    }

    /// Where the bytes of entry `i` start: entries reuse the lines in turn.
    pub open spec fn line_start(&self, i: int) -> int {
        self.width * (i % (self.height as int))
    }

    /// An empty console of `height` lines of `width` bytes.
    pub fn mk_console(width: i32, height: i32) -> (c: Debugconsole)
        requires
            0 < width,
            0 < height,
            width * height <= usize::MAX,
        ensures
            c.wf(),
            c.width == width,
            c.height == height,
            c.next_entry == 0,
    {
        let n = width as usize * height as usize;
        let text = vec![0u8; n];
        Debugconsole { width, height, next_entry: 0, text }
    }

    /// Forgets every entry.
    pub fn clear(&mut self)
        ensures
            final(self).next_entry == 0,
            final(self).width == old(self).width,
            final(self).height == old(self).height,
            final(self).text == old(self).text,
    {
        self.next_entry = 0;
    }

    /// The bytes of entry `i`.
    pub fn get_line(&self, i: i32) -> (r: &[u8])
        requires
            self.wf(),
            i >= 0,
        ensures
            r@ == self.text@.subrange(self.line_start(i as int), self.line_start(i as int) + self.width),
    {
        proof {
            lemma_row_in_grid(self.width as int, self.height as int, (i % self.height) as int);
        }
        let n = self.text.len();
        assert(n == self.width * self.height);
        let start = self.width as usize * (i % self.height) as usize;
        let stop = start + self.width as usize;
        let all = self.text.as_slice();
        &all[start..stop]
    }

    /// The bytes of entry `i`, to write in place.
    pub fn get_line_mut(&mut self, i: i32) -> (r: &mut [u8])
        requires
            old(self).wf(),
            i >= 0,
        ensures
            ({
                let a = old(self).line_start(i as int);
                let w = old(self).width as int;
                &&& r@ == old(self).text@.subrange(a, a + w)
                &&& final(self).text@ == old(self).text@.subrange(0, a) + final(r)@ + old(
                    self,
                ).text@.subrange(a + w, old(self).text@.len() as int)
                &&& final(self).width == old(self).width
                &&& final(self).height == old(self).height
                &&& final(self).next_entry == old(self).next_entry
            }),
    {
        proof {
            lemma_row_in_grid(self.width as int, self.height as int, (i % self.height) as int);
        }
        let len = self.text.len();
        let start = self.width as usize * (i % self.height) as usize;
        let w = self.width as usize;
        assert(start + w <= len);
        let all = self.text.as_mut_slice();
        let (_, rest) = all.split_at_mut(start);
        let (line, _) = rest.split_at_mut(w);
        line
    }

    /// Writes `msg` as the next entry, cut or padded with spaces to the width.
    pub fn log(&mut self, msg: &str)
        requires
            old(self).wf(),
            old(self).next_entry < i32::MAX,
        ensures
            final(self).wf(),
            final(self).width == old(self).width,
            final(self).height == old(self).height,
            final(self).next_entry == old(self).next_entry + 1,
            ({
                let a = old(self).line_start(old(self).next_entry as int);
                let w = old(self).width as int;
                final(self).text@ == old(self).text@.subrange(0, a) + padded(msg.spec_bytes(), w)
                    + old(self).text@.subrange(a + w, old(self).text@.len() as int)
            }),
    {
        let i = self.next_entry;
        self.next_entry = i + 1;
        proof {
            lemma_row_in_grid(self.width as int, self.height as int, (i % self.height) as int);
        }
        let n = self.text.len();
        let start = self.width as usize * (i % self.height) as usize;
        let w = self.width as usize;
        let bytes = msg.as_bytes();
        let mut j: usize = 0;
        while j < w
            invariant
                start + w <= self.text@.len(),
                n == self.text@.len(),
                self.text@.len() == old(self).text@.len(),
                self.width == old(self).width,
                self.height == old(self).height,
                self.next_entry == old(self).next_entry + 1,
                w == old(self).width,
                bytes@ == msg.spec_bytes(),
                j <= w,
                forall|k: int| 0 <= k < start ==> #[trigger] self.text@[k] == old(self).text@[k],
                forall|k: int|
                    start + w <= k < self.text@.len() ==> #[trigger] self.text@[k] == old(self).text@[k],
                forall|k: int|
                    0 <= k < j ==> #[trigger] self.text@[start + k] == padded(bytes@, w as int)[k],
            decreases w - j,
        {
            let b = if j < bytes.len() {
                bytes[j]
            } else {
                SPACE_BYTE
            };
            self.text.set(start + j, b);
            j = j + 1;
        }
        proof {
            let a = start as int;
            let expect = old(self).text@.subrange(0, a) + padded(msg.spec_bytes(), w as int)
                + old(self).text@.subrange(a + w, old(self).text@.len() as int);
            assert forall|k: int| 0 <= k < self.text@.len() implies self.text@[k] == expect[k] by {
                if a <= k < a + w {
                    assert(self.text@[start + (k - a)] == padded(bytes@, w as int)[k - a]);
                }
            }
            assert(self.text@ =~= expect);
        }
    }
}

} // verus!
