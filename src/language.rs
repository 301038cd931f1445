//! The stages of the language pipeline that turns text into terms: each
//! stage is applied to an input and hands its output on to the next.
use vstd::prelude::*;
use vstd::string::StringSliceAdditionalSpecFns;

verus! {

/// A stage of the push-based pipeline: applied to an input, it passes what
/// it makes of it on to its callback.
pub trait CanApply<Input> {
    fn apply(&mut self, input: Input);
}

/// The value of a sequence of decimal digits.
pub open spec fn digits_value(b: Seq<u8>) -> nat
    decreases b.len(),
{
    if b.len() == 0 {
        0
    } else {
        digits_value(b.drop_last()) * 10 + (b.last() - 48) as nat
    }
}

/// Whether every byte is an ASCII decimal digit.
pub open spec fn all_digits(b: Seq<u8>) -> bool {
    forall|i: int| 0 <= i < b.len() ==> 48 <= #[trigger] b[i] <= 57
}

/// The number that a text of an unsigned integer denotes: an optional `+`
/// followed by one or more decimal digits; `None` for any other text.
pub open spec fn decimal_text(b: Seq<u8>) -> Option<nat> {
    let d = if b.len() > 0 && b[0] == 43 {
        b.drop_first()
    } else {
        b
    };
    if d.len() > 0 && all_digits(d) {
        Some(digits_value(d))
    } else {
        None
    }
}

proof fn lemma_digits_mono(b: Seq<u8>, i: int)
    requires
        0 <= i <= b.len(),
        all_digits(b),
    ensures
        digits_value(b.take(i)) <= digits_value(b),
    decreases b.len() - i,
{
    if i < b.len() {
        lemma_digits_mono(b, i + 1);
        assert(b.take(i + 1).drop_last() =~= b.take(i));
        assert(b.take(i + 1).last() == b[i]);
    } else {
        assert(b.take(i) =~= b);
    }
}

/// Parses the text of an unsigned integer, as `u64::from_str` does: an
/// optional `+` and one or more decimal digits, of a value that fits.
pub fn parse_u64(s: &str) -> (r: Option<u64>)
    ensures
        r == decimal_u64(s.spec_bytes()),
{
    parse_decimal(s.as_bytes())
}

/// The number that a text denotes, where it fits a `u64`.
pub open spec fn decimal_u64(b: Seq<u8>) -> Option<u64> {
    match decimal_text(b) {
        Some(v) => if v <= u64::MAX {
            Some(v as u64)
        } else {
            None
        },
        None => None,
    }
}

/// Parses the bytes of the text of an unsigned integer (see `parse_u64`).
pub fn parse_decimal(b: &[u8]) -> (r: Option<u64>)
    ensures
        r == decimal_u64(b@),
{
    let ghost bs = b@;
    let n = b.len();
    let start: usize = if n > 0 && b[0] == 43 { 1 } else { 0 };
    let ghost d = bs.subrange(start as int, n as int);
    proof {
        if start == 1 {
            assert(d =~= bs.drop_first());
        } else {
            assert(d =~= bs);
        }
    }
    if start >= n {
        assert(d.len() == 0);
        return None;
    }
    let mut value: u64 = 0;
    let mut overflow = false;
    let mut i: usize = start;
    assert(d.take(0) =~= Seq::<u8>::empty());
    while i < n
        invariant
            start <= i <= n,
            bs == b@,
            n == bs.len(),
            d == bs.subrange(start as int, n as int),
            d == (if bs.len() > 0 && bs[0] == 43 { bs.drop_first() } else { bs }),
            d.len() > 0,
            all_digits(d.take(i - start)),
            !overflow ==> value == digits_value(d.take(i - start)),
            overflow ==> digits_value(d.take(i - start)) > u64::MAX,
        decreases n - i,
    {
        let c = b[i];
        let ghost k = i - start;
        assert(d[k] == c);
        assert(d.take(k + 1).drop_last() =~= d.take(k));
        assert(d.take(k + 1).last() == c);
        if c < 48 || c > 57 {
            assert(!all_digits(d));
            return None;
        }
        let digit = (c - 48) as u64;
        if !overflow {
            if value > (u64::MAX - digit) / 10 {
                assert(value * 10 + digit > u64::MAX) by (nonlinear_arith)
                    requires
                        value > (u64::MAX - digit) / 10,
                        digit <= 9,
                ;
                overflow = true;
            } else {
                assert(value * 10 + digit <= u64::MAX) by (nonlinear_arith)
                    requires
                        value <= (u64::MAX - digit) / 10,
                        digit <= 9,
                ;
                value = value * 10 + digit;
            }
        } else {
            assert(digits_value(d.take(k)) * 10 + digit >= digits_value(d.take(k))) by (nonlinear_arith);
        }
        assert forall|j: int| 0 <= j < d.take(k + 1).len() implies 48 <= #[trigger] d.take(k + 1)[j] <= 57 by {
            if j < k {
                assert(d.take(k + 1)[j] == d.take(k)[j]);
            }
        }
        i = i + 1;
    }
    assert(d.take(n - start) =~= d);
    if overflow {
        None
    } else {
        Some(value)
    }
}

/// Passes each input that is the text of an unsigned integer on to the
/// number callback as a number, and any other on to the string callback.
pub struct NumberFilter<TStringCallback, TNumberCallback> {
    string_callback: TStringCallback,
    number_callback: TNumberCallback,
}

impl<TSCB, TNCB> NumberFilter<TSCB, TNCB> {
    /// The string callback.
    pub closed spec fn spec_string_callback(&self) -> TSCB {
        self.string_callback
    }

    /// The number callback.
    pub closed spec fn spec_number_callback(&self) -> TNCB {
        self.number_callback
    }

    /// A filter with its two callbacks.
    pub fn create(number_callback: TNCB, string_callback: TSCB) -> (r: Self)
        ensures
            r.spec_string_callback() == string_callback,
            r.spec_number_callback() == number_callback,
    {
        NumberFilter { string_callback, number_callback }
    }
}

impl<'a, TSCB: CanApply<&'a str>, TNCB: CanApply<u64>> CanApply<&'a str> for NumberFilter<TSCB, TNCB> {
    fn apply(&mut self, input: &'a str) {
        match parse_u64(input) {
            Some(number) => self.number_callback.apply(number),
            None => self.string_callback.apply(input),
        }
    }
}

/// Passes each input that is the text of an unsigned integer that fits a
/// `usize` on to its callback as a number, and drops any other.
pub struct ToUsize<TCallback> {
    callback: TCallback,
}

impl<TCallback> ToUsize<TCallback> {
    /// The callback.
    pub closed spec fn spec_callback(&self) -> TCallback {
        self.callback
    }

    /// A converter with its callback.
    pub fn create(callback: TCallback) -> (r: Self)
        ensures
            r.spec_callback() == callback,
    {
        ToUsize { callback }
    }
}

impl<'a, TCallback: CanApply<usize>> CanApply<&'a str> for ToUsize<TCallback> {
    fn apply(&mut self, input: &'a str) {
        match parse_u64(input) {
            Some(number) => {
                if number <= usize::MAX as u64 {
                    self.callback.apply(number as usize);
                }
            },
            None => {},
        }
    }
}

/// Splits text into its runs of alphanumeric characters.
pub struct AlphaNumericTokenizer<TCB> {
    cb: TCB,
}

impl<TCB> AlphaNumericTokenizer<TCB> {
    /// The cb.
    pub closed spec fn spec_cb(&self) -> TCB {
        self.cb
    }

    /// A tokenizer with its callback.
    pub fn create(cb: TCB) -> (r: Self)
        ensures
            r.spec_cb() == cb,
    {
        AlphaNumericTokenizer { cb }
    }
}

/// Shows each input before passing it on.
pub struct Debugger<TCallback> {
    callback: TCallback,
}

impl<TCallback> Debugger<TCallback> {
    /// The callback.
    pub closed spec fn spec_callback(&self) -> TCallback {
        self.callback
    }

    /// A debugging stage with its callback.
    pub fn create(callback: TCallback) -> (r: Self)
        ensures
            r.spec_callback() == callback,
    {
        Debugger { callback }
    }
}

/// Splits text at whitespace.
pub struct WhitespaceTokenizer<TCallback> {
    callback: TCallback,
}

impl<TCallback> WhitespaceTokenizer<TCallback> {
    /// The callback.
    pub closed spec fn spec_callback(&self) -> TCallback {
        self.callback
    }

    /// A tokenizer with its callback.
    pub fn create(callback: TCallback) -> (r: Self)
        ensures
            r.spec_callback() == callback,
    {
        WhitespaceTokenizer { callback }
    }
}

/// Lowercases text.
pub struct LowercaseFilter<TCallback> {
    callback: TCallback,
}

impl<TCallback> LowercaseFilter<TCallback> {
    /// The callback.
    pub closed spec fn spec_callback(&self) -> TCallback {
        self.callback
    }

    /// A filter with its callback.
    pub fn create(callback: TCallback) -> (r: Self)
        ensures
            r.spec_callback() == callback,
    {
        LowercaseFilter { callback }
    }
}

/// Passes its input on to a callback that the query side combines with
/// another operand by OR.
pub struct OrConstructor<CB> {
    cb: CB,
}

impl<CB> OrConstructor<CB> {
    /// The cb.
    pub closed spec fn spec_cb(&self) -> CB {
        self.cb
    }

    /// A constructor with its callback.
    pub fn create(cb: CB) -> (r: Self)
        ensures
            r.spec_cb() == cb,
    {
        OrConstructor { cb }
    }
}

impl<T, CB: CanApply<T>> CanApply<T> for OrConstructor<CB> {
    fn apply(&mut self, t: T) {
        self.cb.apply(t)
    }
}

} // verus!
