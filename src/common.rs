//! Items shared by the bit and byte partitioners.
use vstd::prelude::*;
use vstd::slice::{slice_subrange, slice_to_vec};

verus! {

/// A parsed head together with the unconsumed tail of the input.
#[derive(Debug, Clone, PartialEq, Eq)]
pub struct Sequence<H, T> {
    pub head: H,
    pub tail: T,
}

/// The input slice holds fewer elements than were asked for.
#[derive(Debug, Clone, Copy, PartialEq, Eq)]
pub struct LengthError {
    /// How many elements were asked for.
    pub needed: usize,
    /// How many elements the slice holds.
    pub available: usize,
}

impl<'a, T: Copy + Default, const N: usize> Sequence<[T; N], &'a [T]> {
    /// Takes the first `N` elements of `slice` as an array and keeps the rest
    /// as the tail. A slice longer than `N` is accepted; a shorter one fails.
    pub fn try_from_slice(slice: &'a [T]) -> (r: Result<Self, LengthError>)
        ensures
            r is Ok <==> N <= slice@.len(),
            r matches Ok(s) ==> {
                &&& s.head@ == slice@.take(N as int)
                &&& s.tail@ == slice@.skip(N as int)
                &&& s.head@ + s.tail@ == slice@
                &&& s.head@.len() + s.tail@.len() == slice@.len()
            },
            r matches Err(e) ==> e.needed == N && e.available == slice@.len(),
    {
        if slice.len() < N {
            return Err(LengthError { needed: N, available: slice.len() });
        }
        let (front, tail) = slice.split_at(N);
        let mut head: [T; N] = [T::default(); N];
        let mut i: usize = 0;
        while i < N
            invariant
                i <= N,
                front@.len() == N,
                front@ == slice@.take(N as int),
                forall|j: int| 0 <= j < i ==> head@[j] == front@[j],
            decreases N - i,
        {
            head[i] = front[i];
            i = i + 1;
        }
        proof {
            assert(head@ =~= slice@.take(N as int));
            assert(head@ + tail@ =~= slice@);
        }
        Ok(Sequence { head, tail })
    }
}


/// Why a list of field widths was refused.
#[derive(Debug, Clone, Copy, PartialEq, Eq)]
pub enum WidthError {
    /// A field was declared with width zero.
    ZeroWidth,
    /// The widths do not add up to the width of the source.
    SumMismatch,
    /// The source is wider than the widest integer that can be partitioned.
    SourceTooWide,
    /// The value has bits set above the declared width of the source.
    ValueTooWide,
}

/// The sum of a list of widths.
pub open spec fn width_sum(widths: Seq<usize>) -> nat
    decreases widths.len(),
{
    if widths.len() == 0 {
        0
    } else {
        (widths[0] + width_sum(widths.drop_first())) as nat
    }
}

/// Whether some declared width is zero.
pub open spec fn has_zero_width(widths: Seq<usize>) -> bool {
    exists|i: int| 0 <= i < widths.len() && widths[i] == 0
}

/// The outcome of validating `widths` against a source of `total` units:
/// every width is positive and together they cover the source exactly.
pub open spec fn validate_widths_spec(total: nat, widths: Seq<usize>) -> Result<(), WidthError> {
    if has_zero_width(widths) {
        Err(WidthError::ZeroWidth)
    } else if width_sum(widths) != total {
        Err(WidthError::SumMismatch)
    } else {
        Ok(())
    }
}

proof fn lemma_width_sum_skip(widths: Seq<usize>, i: int)
    requires
        0 <= i < widths.len(),
    ensures
        width_sum(widths.skip(i)) == widths[i] + width_sum(widths.skip(i + 1)),
{
    assert(widths.skip(i).drop_first() =~= widths.skip(i + 1));
}

/// Checks that every width is positive and that the widths add up to `total`.
pub fn validate_widths(total: usize, widths: &Vec<usize>) -> (r: Result<(), WidthError>)
    ensures
        r == validate_widths_spec(total as nat, widths@),
{
    let n = widths.len();
    let mut i: usize = 0;
    while i < n
        invariant
            n == widths@.len(),
            i <= n,
            forall|j: int| 0 <= j < i ==> widths@[j] != 0,
        decreases n - i,
    {
        if widths[i] == 0 {
            return Err(WidthError::ZeroWidth);
        }
        i = i + 1;
    }
    // Add from the back, so that the running total is the sum of a suffix.
    let mut sum: usize = 0;
    let mut k: usize = n;
    while k > 0
        invariant
            n == widths@.len(),
            k <= n,
            sum == width_sum(widths@.skip(k as int)),
            sum <= total,
            forall|j: int| 0 <= j < n ==> widths@[j] != 0,
        decreases k,
    {
        proof {
            lemma_width_sum_skip(widths@, k - 1);
        }
        if widths[k - 1] > total - sum {
            proof {
                lemma_width_sum_prefix_bound(widths@, (k - 1) as int);
            }
            return Err(WidthError::SumMismatch);
        }
        sum = sum + widths[k - 1];
        k = k - 1;
    }
    assert(widths@.skip(0) =~= widths@);
    if sum != total {
        return Err(WidthError::SumMismatch);
    }
    Ok(())
}

/// The sum of a list of widths is at least the sum of any of its suffixes.
proof fn lemma_width_sum_prefix_bound(widths: Seq<usize>, i: int)
    requires
        0 <= i <= widths.len(),
    ensures
        width_sum(widths.skip(i)) <= width_sum(widths),
    decreases i,
{
    if i > 0 {
        lemma_width_sum_prefix_bound(widths, i - 1);
        lemma_width_sum_skip(widths, i - 1);
    } else {
        assert(widths.skip(0) =~= widths);
    }
}

/// The pieces that `widths` cut from the front of `s`, in order.
pub open spec fn chunks<T>(s: Seq<T>, widths: Seq<usize>) -> Seq<Seq<T>>
    decreases widths.len(),
{
    if widths.len() == 0 {
        seq![]
    } else {
        seq![s.take(widths[0] as int)] + chunks(s.skip(widths[0] as int), widths.drop_first())
    }
}

/// A validated list of field widths that covers a source of `total` units
/// (bits or bytes) exactly.
pub struct Layout {
    total: usize,
    widths: Vec<usize>,
}

impl View for Layout {
    type V = (nat, Seq<usize>);

    closed spec fn view(&self) -> (nat, Seq<usize>) {
        (self.total as nat, self.widths@)
    }
}

impl Layout {
    #[verifier::type_invariant]
    spec fn inv(&self) -> bool {
        validate_widths_spec(self.total as nat, self.widths@) is Ok
    }

    /// Accepts `widths` for a source of `total` units, or says why not.
    pub fn new(total: usize, widths: Vec<usize>) -> (r: Result<Layout, WidthError>)
        ensures
            r is Ok <==> validate_widths_spec(total as nat, widths@) is Ok,
            r matches Err(e) ==> validate_widths_spec(total as nat, widths@) == Err::<(), _>(e),
            r matches Ok(l) ==> l@ == (total as nat, widths@),
    {
        match validate_widths(total, &widths) {
            Ok(()) => Ok(Layout { total, widths }),
            Err(e) => Err(e),
        }
    }

    /// The width of the source.
    pub fn total(&self) -> (r: usize)
        ensures
            r == self@.0,
    {
        self.total
    }

    /// The declared widths, in order; they are positive and cover the
    /// source exactly.
    pub fn widths(&self) -> (r: &Vec<usize>)
        ensures
            r@ == self@.1,
            validate_widths_spec(self@.0, self@.1) is Ok,
    {
        proof {
            use_type_invariant(self);
        }
        &self.widths
    }

    /// Splits `data`, which is exactly as long as the layout, into one piece
    /// per declared width.
    pub fn split<T: Copy>(&self, data: &[T]) -> (r: Vec<Vec<T>>)
        requires
            data@.len() == self@.0,
        ensures
            r@.len() == self@.1.len(),
            forall|i: int| 0 <= i < r@.len() ==> #[trigger] r@[i]@ == chunks(data@, self@.1)[i],
    {
        proof {
            use_type_invariant(self);
        }
        split_chunks(data, &self.widths)
    }

    /// Splits the front of `slice` into one piece per declared width and
    /// keeps what follows as the tail. Fails when the slice is shorter than
    /// the layout; never returns a short piece.
    pub fn try_split<'a, T: Copy>(&self, slice: &'a [T]) -> (r: Result<
        Sequence<Vec<Vec<T>>, &'a [T]>,
        LengthError,
    >)
        ensures
            r is Ok <==> self@.0 <= slice@.len(),
            r matches Ok(s) ==> {
                &&& s.head@.len() == self@.1.len()
                &&& forall|i: int|
                    0 <= i < s.head@.len() ==> #[trigger] s.head@[i]@ == chunks(slice@, self@.1)[i]
                &&& s.tail@ == slice@.skip(self@.0 as int)
            },
            r matches Err(e) ==> e.needed == self@.0 && e.available == slice@.len(),
    {
        proof {
            use_type_invariant(self);
        }
        if slice.len() < self.total {
            return Err(LengthError { needed: self.total, available: slice.len() });
        }
        let (front, tail) = slice.split_at(self.total);
        proof {
            lemma_chunks_prefix(slice@, self.widths@, self.total as int);
        }
        let head = split_chunks(front, &self.widths);
        Ok(Sequence { head, tail })
    }
}

/// Cutting pieces from a prefix that holds all of them gives the same pieces.
pub(crate) proof fn lemma_chunks_prefix<T>(s: Seq<T>, widths: Seq<usize>, n: int)
    requires
        width_sum(widths) <= n <= s.len(),
    ensures
        chunks(s.take(n), widths) == chunks(s, widths),
    decreases widths.len(),
{
    if widths.len() > 0 {
        let w = widths[0] as int;
        assert(s.take(n).take(w) =~= s.take(w));
        assert(s.take(n).skip(w) =~= s.skip(w).take(n - w));
        lemma_chunks_prefix(s.skip(w), widths.drop_first(), n - w);
    }
}

fn split_chunks<T: Copy>(data: &[T], widths: &Vec<usize>) -> (r: Vec<Vec<T>>)
    requires
        width_sum(widths@) <= data@.len(),
    ensures
        r@.len() == widths@.len(),
        forall|i: int| 0 <= i < r@.len() ==> #[trigger] r@[i]@ == chunks(data@, widths@)[i],
{
    let n = widths.len();
    let len = data.len();
    let mut out: Vec<Vec<T>> = Vec::new();
    let mut off: usize = 0;
    let mut i: usize = 0;
    let ghost mut done: Seq<Seq<T>> = seq![];
    assert(widths@.skip(0) =~= widths@);
    assert(data@.skip(0) =~= data@);
    while i < n
        invariant
            n == widths@.len(),
            len == data@.len(),
            i <= n,
            off <= data@.len(),
            off + width_sum(widths@.skip(i as int)) <= data@.len(),
            done.len() == i,
            out@.len() == i,
            forall|j: int| 0 <= j < i ==> #[trigger] out@[j]@ == done[j],
            chunks(data@, widths@) == done + chunks(data@.skip(off as int), widths@.skip(i as int)),
        decreases n - i,
    {
        let w = widths[i];
        proof {
            lemma_width_sum_skip(widths@, i as int);
            assert(off + w <= data@.len());
            let rest = data@.skip(off as int);
            assert(widths@.skip(i as int).drop_first() =~= widths@.skip(i + 1));
            assert(rest.skip(w as int) =~= data@.skip(off + w));
            assert(rest.take(w as int) =~= data@.subrange(off as int, off + w));
            assert(chunks(data@, widths@) == (done + seq![rest.take(w as int)]) + chunks(
                data@.skip(off + w),
                widths@.skip(i + 1),
            ));
        }
        let piece = slice_to_vec(slice_subrange(data, off, off + w));
        out.push(piece);
        proof {
            done = done + seq![data@.subrange(off as int, off + w)];
        }
        off = off + w;
        i = i + 1;
    }
    proof {
        assert(widths@.skip(n as int) =~= seq![]);
        assert(done + chunks(data@.skip(off as int), widths@.skip(n as int)) =~= done);
    }
    out
}

/// The type a raw extracted field is turned into.
#[derive(Debug, Clone, Copy, PartialEq, Eq)]
pub enum Target {
    /// Reserved bits: the field is consumed and dropped.
    Skip,
    /// Nonzero is `true`.
    Bool,
    U8,
    U16,
    U32,
    U64,
    U128,
}

/// A field after coercion.
#[derive(Debug, Clone, Copy, PartialEq, Eq)]
pub enum Value {
    Bool(bool),
    U8(u8),
    U16(u16),
    U32(u32),
    U64(u64),
    U128(u128),
}

/// Conversion of a raw unsigned value into a primitive type: nonzero is
/// `true` for `bool`, a narrower integer keeps the low bits, and `()` drops
/// the value.
pub trait AsPrimitive<T>: Sized {
    /// The converted value.
    spec fn spec_as_primitive(self) -> T;

    fn as_primitive(self) -> (r: T)
        ensures
            r == self.spec_as_primitive(),
    ;
}

impl AsPrimitive<bool> for u128 {
    open spec fn spec_as_primitive(self) -> bool {
        self != 0
    }

    fn as_primitive(self) -> (r: bool) {
        self != 0
    }
}

impl AsPrimitive<u8> for u128 {
    open spec fn spec_as_primitive(self) -> u8 {
        (self % 0x100) as u8
    }

    fn as_primitive(self) -> (r: u8) {
        (self % 0x100) as u8
    }
}

impl AsPrimitive<u16> for u128 {
    open spec fn spec_as_primitive(self) -> u16 {
        (self % 0x1_0000) as u16
    }

    fn as_primitive(self) -> (r: u16) {
        (self % 0x1_0000) as u16
    }
}

impl AsPrimitive<u32> for u128 {
    open spec fn spec_as_primitive(self) -> u32 {
        (self % 0x1_0000_0000) as u32
    }

    fn as_primitive(self) -> (r: u32) {
        (self % 0x1_0000_0000) as u32
    }
}

impl AsPrimitive<u64> for u128 {
    open spec fn spec_as_primitive(self) -> u64 {
        (self % 0x1_0000_0000_0000_0000) as u64
    }

    fn as_primitive(self) -> (r: u64) {
        (self % 0x1_0000_0000_0000_0000) as u64
    }
}

impl AsPrimitive<u128> for u128 {
    open spec fn spec_as_primitive(self) -> u128 {
        self
    }

    fn as_primitive(self) -> (r: u128) {
        self
    }
}

impl AsPrimitive<usize> for u128 {
    open spec fn spec_as_primitive(self) -> usize {
        (self as nat % (usize::MAX as nat + 1)) as usize
    }

    fn as_primitive(self) -> (r: usize) {
        (self % (usize::MAX as u128 + 1)) as usize
    }
}

impl AsPrimitive<()> for u128 {
    open spec fn spec_as_primitive(self) -> () {
        ()
    }

    fn as_primitive(self) -> (r: ()) {
    }
}

/// What a raw field becomes under `target`; `None` for a skipped field.
pub open spec fn coerce_spec(raw: nat, target: Target) -> Option<Value> {
    match target {
        Target::Skip => None,
        Target::Bool => Some(Value::Bool(raw != 0)),
        Target::U8 => Some(Value::U8((raw % 0x100) as u8)),
        Target::U16 => Some(Value::U16((raw % 0x1_0000) as u16)),
        Target::U32 => Some(Value::U32((raw % 0x1_0000_0000) as u32)),
        Target::U64 => Some(Value::U64((raw % 0x1_0000_0000_0000_0000) as u64)),
        Target::U128 => Some(Value::U128((raw % 0x1_0000_0000_0000_0000_0000_0000_0000_0000nat) as u128)),
    }
}

/// A sequence of machine integers as mathematical ones.
pub open spec fn as_nats(s: Seq<u128>) -> Seq<nat> {
    Seq::new(s.len(), |i: int| s[i] as nat)
}

/// The values of the raw fields `raws` under `targets`, skipped fields left out.
pub open spec fn coerce_all(raws: Seq<nat>, targets: Seq<Target>) -> Seq<Value>
    decreases targets.len(),
{
    if targets.len() == 0 || raws.len() == 0 {
        seq![]
    } else {
        let rest = coerce_all(raws.drop_first(), targets.drop_first());
        match coerce_spec(raws[0], targets[0]) {
            Some(v) => seq![v] + rest,
            None => rest,
        }
    }
}

/// How many of `targets` produce a value.
pub open spec fn kept_count(targets: Seq<Target>) -> nat
    decreases targets.len(),
{
    if targets.len() == 0 {
        0
    } else if targets[0] is Skip {
        kept_count(targets.drop_first())
    } else {
        1 + kept_count(targets.drop_first())
    }
}

/// Turns one raw field into its target type.
pub fn coerce(raw: u128, target: Target) -> (r: Option<Value>)
    ensures
        r == coerce_spec(raw as nat, target),
{
    match target {
        Target::Skip => {
            let () = raw.as_primitive();
            None
        },
        Target::Bool => Some(Value::Bool(raw.as_primitive())),
        Target::U8 => Some(Value::U8(raw.as_primitive())),
        Target::U16 => Some(Value::U16(raw.as_primitive())),
        Target::U32 => Some(Value::U32(raw.as_primitive())),
        Target::U64 => Some(Value::U64(raw.as_primitive())),
        Target::U128 => Some(Value::U128(raw.as_primitive())),
    }
}

/// Turns each raw field into its target type, leaving skipped fields out.
pub fn coerce_fields(raws: &Vec<u128>, targets: &Vec<Target>) -> (r: Vec<Value>)
    requires
        raws@.len() == targets@.len(),
    ensures
        r@ == coerce_all(as_nats(raws@), targets@),
{
    let n = raws.len();
    let mut out: Vec<Value> = Vec::new();
    let mut i: usize = 0;
    assert(as_nats(raws@).skip(0) =~= as_nats(raws@));
    assert(targets@.skip(0) =~= targets@);
    while i < n
        invariant
            n == raws@.len(),
            n == targets@.len(),
            i <= n,
            coerce_all(as_nats(raws@), targets@) == out@ + coerce_all(
                as_nats(raws@).skip(i as int),
                targets@.skip(i as int),
            ),
        decreases n - i,
    {
        proof {
            assert(as_nats(raws@).skip(i as int).drop_first() =~= as_nats(raws@).skip(i + 1));
            assert(targets@.skip(i as int).drop_first() =~= targets@.skip(i + 1));
        }
        match coerce(raws[i], targets[i]) {
            Some(v) => {
                proof {
                    assert(out@.push(v) + coerce_all(as_nats(raws@).skip(i + 1), targets@.skip(i + 1))
                        =~= out@ + (seq![v] + coerce_all(as_nats(raws@).skip(i + 1), targets@.skip(i + 1))));
                }
                out.push(v);
            },
            None => {},
        }
        i = i + 1;
    }
    proof {
        assert(out@ + coerce_all(as_nats(raws@).skip(n as int), targets@.skip(n as int)) =~= out@);
    }
    out
}

/// Skipping field `i`, which had a value, removes exactly that value: the
/// values of the other fields stay, in order.
pub proof fn lemma_skip_removes_value(raws: Seq<nat>, targets: Seq<Target>, i: int)
    requires
        raws.len() == targets.len(),
        0 <= i < targets.len(),
        !(targets[i] is Skip),
    ensures
        kept_count(targets.take(i)) < coerce_all(raws, targets).len(),
        coerce_all(raws, targets.update(i, Target::Skip)) == coerce_all(raws, targets).remove(
            kept_count(targets.take(i)) as int,
        ),
    decreases targets.len(),
{
    let skipped = targets.update(i, Target::Skip);
    let rest = coerce_all(raws.drop_first(), targets.drop_first());
    assert(skipped.drop_first() =~= if i == 0 {
        targets.drop_first()
    } else {
        targets.drop_first().update(i - 1, Target::Skip)
    });
    lemma_coerce_all_len(raws.drop_first(), targets.drop_first());
    if i == 0 {
        assert(targets.take(0) =~= seq![]);
        assert(kept_count(targets.take(0)) == 0);
        assert(coerce_all(raws, skipped) == rest);
        assert(coerce_all(raws, targets) == seq![coerce_spec(raws[0], targets[0])->0] + rest);
        assert(coerce_all(raws, targets).remove(0) =~= rest);
    } else {
        lemma_skip_removes_value(raws.drop_first(), targets.drop_first(), i - 1);
        let k = kept_count(targets.drop_first().take(i - 1));
        assert(targets.take(i).drop_first() =~= targets.drop_first().take(i - 1));
        assert(targets.take(i)[0] == targets[0]);
        let shorter = rest.remove(k as int);
        assert(coerce_all(raws.drop_first(), skipped.drop_first()) == shorter);
        match coerce_spec(raws[0], targets[0]) {
            Some(v) => {
                assert(kept_count(targets.take(i)) == k + 1);
                assert(coerce_all(raws, targets) == seq![v] + rest);
                assert(coerce_all(raws, skipped) == seq![v] + shorter);
                assert((seq![v] + rest).remove(k + 1 as int) =~= seq![v] + shorter);
            },
            None => {
                assert(kept_count(targets.take(i)) == k);
                assert(coerce_all(raws, targets) == rest);
                assert(coerce_all(raws, skipped) == shorter);
            },
        }
    }
}

/// A skipped field yields no value: the number of values is the number of
/// fields whose target is not `Skip`.
pub proof fn lemma_coerce_all_len(raws: Seq<nat>, targets: Seq<Target>)
    requires
        raws.len() == targets.len(),
    ensures
        coerce_all(raws, targets).len() == kept_count(targets),
    decreases targets.len(),
{
    if targets.len() > 0 {
        lemma_coerce_all_len(raws.drop_first(), targets.drop_first());
    }
}

} // verus!
