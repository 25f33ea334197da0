use vstd::prelude::*;

verus! {

/// An interval endpoint: a value that the algorithms compare only through an
/// order-preserving, injective ordinal in `i128`.
pub trait Endpoint: Copy {
    /// The ordinal of this endpoint; endpoints compare as their ordinals do.
    spec fn ordinal(&self) -> i128;

    /// Computes the ordinal of this endpoint.
    fn key(&self) -> (k: i128)
        ensures
            k == self.ordinal(),
    ;
}

/// A weight or cost that widens losslessly to `i128`.
pub trait Weight: Copy {
    /// The value of this weight.
    spec fn amount(&self) -> i128;

    /// Computes the value of this weight as an `i128`.
    fn widen(&self) -> (w: i128)
        ensures
            w == self.amount(),
    ;
}

/// The ordinals of a sequence of endpoints.
pub open spec fn ordinals<T: Endpoint>(s: Seq<T>) -> Seq<i128> {
    Seq::new(s.len(), |i: int| s[i].ordinal())
}

/// The values of a sequence of weights.
pub open spec fn amounts<W: Weight>(s: Seq<W>) -> Seq<i128> {
    Seq::new(s.len(), |i: int| s[i].amount())
}

impl Endpoint for i8 {
    open spec fn ordinal(&self) -> i128 { *self as i128 }
    fn key(&self) -> (k: i128) { *self as i128 }
}

impl Endpoint for i16 {
    open spec fn ordinal(&self) -> i128 { *self as i128 }
    fn key(&self) -> (k: i128) { *self as i128 }
}

impl Endpoint for i32 {
    open spec fn ordinal(&self) -> i128 { *self as i128 }
    fn key(&self) -> (k: i128) { *self as i128 }
}

impl Endpoint for i64 {
    open spec fn ordinal(&self) -> i128 { *self as i128 }
    fn key(&self) -> (k: i128) { *self as i128 }
}

impl Endpoint for i128 {
    open spec fn ordinal(&self) -> i128 { *self }
    fn key(&self) -> (k: i128) { *self }
}

impl Endpoint for u8 {
    open spec fn ordinal(&self) -> i128 { *self as i128 }
    fn key(&self) -> (k: i128) { *self as i128 }
}

impl Endpoint for u16 {
    open spec fn ordinal(&self) -> i128 { *self as i128 }
    fn key(&self) -> (k: i128) { *self as i128 }
}

impl Endpoint for u32 {
    open spec fn ordinal(&self) -> i128 { *self as i128 }
    fn key(&self) -> (k: i128) { *self as i128 }
}

impl Endpoint for u64 {
    open spec fn ordinal(&self) -> i128 { *self as i128 }
    fn key(&self) -> (k: i128) { *self as i128 }
}

/// The unsigned 128-bit values, shifted down by `2^127` so that every value
/// has an ordinal in `i128`, in the same order.
impl Endpoint for u128 {
    open spec fn ordinal(&self) -> i128 {
        (*self as int - 0x8000_0000_0000_0000_0000_0000_0000_0000int) as i128
    }

    fn key(&self) -> (k: i128) {
        if *self >= 0x8000_0000_0000_0000_0000_0000_0000_0000u128 {
            (*self - 0x8000_0000_0000_0000_0000_0000_0000_0000u128) as i128
        } else {
            (*self as i128) - i128::MAX - 1
        }
    }
}

impl Endpoint for usize {
    open spec fn ordinal(&self) -> i128 { *self as i128 }
    fn key(&self) -> (k: i128) { *self as i128 }
}

impl Endpoint for isize {
    open spec fn ordinal(&self) -> i128 { *self as i128 }
    fn key(&self) -> (k: i128) { *self as i128 }
}

impl Endpoint for bool {
    open spec fn ordinal(&self) -> i128 { if *self { 1 } else { 0 } }
    fn key(&self) -> (k: i128) { if *self { 1 } else { 0 } }
}

impl Endpoint for char {
    open spec fn ordinal(&self) -> i128 { *self as u32 as i128 }
    fn key(&self) -> (k: i128) { *self as u32 as i128 }
}

impl Weight for i8 {
    open spec fn amount(&self) -> i128 { *self as i128 }
    fn widen(&self) -> (w: i128) { *self as i128 }
}

impl Weight for i16 {
    open spec fn amount(&self) -> i128 { *self as i128 }
    fn widen(&self) -> (w: i128) { *self as i128 }
}

impl Weight for i32 {
    open spec fn amount(&self) -> i128 { *self as i128 }
    fn widen(&self) -> (w: i128) { *self as i128 }
}

impl Weight for i64 {
    open spec fn amount(&self) -> i128 { *self as i128 }
    fn widen(&self) -> (w: i128) { *self as i128 }
}

impl Weight for i128 {
    open spec fn amount(&self) -> i128 { *self }
    fn widen(&self) -> (w: i128) { *self }
}

impl Weight for u8 {
    open spec fn amount(&self) -> i128 { *self as i128 }
    fn widen(&self) -> (w: i128) { *self as i128 }
}

impl Weight for u16 {
    open spec fn amount(&self) -> i128 { *self as i128 }
    fn widen(&self) -> (w: i128) { *self as i128 }
}

impl Weight for u32 {
    open spec fn amount(&self) -> i128 { *self as i128 }
    fn widen(&self) -> (w: i128) { *self as i128 }
}

impl Weight for u64 {
    open spec fn amount(&self) -> i128 { *self as i128 }
    fn widen(&self) -> (w: i128) { *self as i128 }
}

impl Weight for bool {
    open spec fn amount(&self) -> i128 { if *self { 1 } else { 0 } }
    fn widen(&self) -> (w: i128) { if *self { 1 } else { 0 } }
}

/// Computes the ordinals of a slice of endpoints.
pub fn ordinals_of<T: Endpoint>(s: &[T]) -> (r: Vec<i128>)
    ensures
        r@ == ordinals(s@),
{
    let mut r: Vec<i128> = Vec::with_capacity(s.len());
    let mut i: usize = 0;
    while i < s.len()
        invariant
            i <= s.len(),
            r@ == ordinals(s@).take(i as int),
        decreases s.len() - i,
    {
        r.push(s[i].key());
        i += 1;
        assert(r@ =~= ordinals(s@).take(i as int));
    }
    assert(r@ =~= ordinals(s@));
    r
}

/// Computes the values of a slice of weights.
pub fn amounts_of<W: Weight>(s: &[W]) -> (r: Vec<i128>)
    ensures
        r@ == amounts(s@),
{
    let mut r: Vec<i128> = Vec::with_capacity(s.len());
    let mut i: usize = 0;
    while i < s.len()
        invariant
            i <= s.len(),
            r@ == amounts(s@).take(i as int),
        decreases s.len() - i,
    {
        r.push(s[i].widen());
        i += 1;
        assert(r@ =~= amounts(s@).take(i as int));
    }
    assert(r@ =~= amounts(s@));
    r
}


// ----------------------------------------------------------------------------
// What ordinals and amounts are.
// ----------------------------------------------------------------------------

/// Endpoints of type `i8` are ordered as their ordinals are, and distinct
/// endpoints have distinct ordinals: the ordinal is the value itself.
pub proof fn lemma_ordinal_i8(a: i8, b: i8)
    ensures
        a.ordinal() == a as int,
        (a < b) == (a.ordinal() < b.ordinal()),
        (a == b) == (a.ordinal() == b.ordinal()),
{
}

/// Endpoints of type `i16` are ordered as their ordinals are, and distinct
/// endpoints have distinct ordinals: the ordinal is the value itself.
pub proof fn lemma_ordinal_i16(a: i16, b: i16)
    ensures
        a.ordinal() == a as int,
        (a < b) == (a.ordinal() < b.ordinal()),
        (a == b) == (a.ordinal() == b.ordinal()),
{
}

/// Endpoints of type `i32` are ordered as their ordinals are, and distinct
/// endpoints have distinct ordinals: the ordinal is the value itself.
pub proof fn lemma_ordinal_i32(a: i32, b: i32)
    ensures
        a.ordinal() == a as int,
        (a < b) == (a.ordinal() < b.ordinal()),
        (a == b) == (a.ordinal() == b.ordinal()),
{
}

/// Endpoints of type `i64` are ordered as their ordinals are, and distinct
/// endpoints have distinct ordinals: the ordinal is the value itself.
pub proof fn lemma_ordinal_i64(a: i64, b: i64)
    ensures
        a.ordinal() == a as int,
        (a < b) == (a.ordinal() < b.ordinal()),
        (a == b) == (a.ordinal() == b.ordinal()),
{
}

/// Endpoints of type `i128` are ordered as their ordinals are, and distinct
/// endpoints have distinct ordinals: the ordinal is the value itself.
pub proof fn lemma_ordinal_i128(a: i128, b: i128)
    ensures
        a.ordinal() == a as int,
        (a < b) == (a.ordinal() < b.ordinal()),
        (a == b) == (a.ordinal() == b.ordinal()),
{
}

/// Endpoints of type `u8` are ordered as their ordinals are, and distinct
/// endpoints have distinct ordinals: the ordinal is the value itself.
pub proof fn lemma_ordinal_u8(a: u8, b: u8)
    ensures
        a.ordinal() == a as int,
        (a < b) == (a.ordinal() < b.ordinal()),
        (a == b) == (a.ordinal() == b.ordinal()),
{
}

/// Endpoints of type `u16` are ordered as their ordinals are, and distinct
/// endpoints have distinct ordinals: the ordinal is the value itself.
pub proof fn lemma_ordinal_u16(a: u16, b: u16)
    ensures
        a.ordinal() == a as int,
        (a < b) == (a.ordinal() < b.ordinal()),
        (a == b) == (a.ordinal() == b.ordinal()),
{
}

/// Endpoints of type `u32` are ordered as their ordinals are, and distinct
/// endpoints have distinct ordinals: the ordinal is the value itself.
pub proof fn lemma_ordinal_u32(a: u32, b: u32)
    ensures
        a.ordinal() == a as int,
        (a < b) == (a.ordinal() < b.ordinal()),
        (a == b) == (a.ordinal() == b.ordinal()),
{
}

/// Endpoints of type `u64` are ordered as their ordinals are, and distinct
/// endpoints have distinct ordinals: the ordinal is the value itself.
pub proof fn lemma_ordinal_u64(a: u64, b: u64)
    ensures
        a.ordinal() == a as int,
        (a < b) == (a.ordinal() < b.ordinal()),
        (a == b) == (a.ordinal() == b.ordinal()),
{
}

/// Endpoints of type `usize` are ordered as their ordinals are, and distinct
/// endpoints have distinct ordinals: the ordinal is the value itself.
pub proof fn lemma_ordinal_usize(a: usize, b: usize)
    ensures
        a.ordinal() == a as int,
        (a < b) == (a.ordinal() < b.ordinal()),
        (a == b) == (a.ordinal() == b.ordinal()),
{
}

/// Endpoints of type `isize` are ordered as their ordinals are, and distinct
/// endpoints have distinct ordinals: the ordinal is the value itself.
pub proof fn lemma_ordinal_isize(a: isize, b: isize)
    ensures
        a.ordinal() == a as int,
        (a < b) == (a.ordinal() < b.ordinal()),
        (a == b) == (a.ordinal() == b.ordinal()),
{
}

/// Endpoints of type `u128` are ordered as their ordinals are, and distinct
/// endpoints have distinct ordinals: the ordinal is the value less `2^127`.
pub proof fn lemma_ordinal_u128(a: u128, b: u128)
    ensures
        a.ordinal() == a as int - 0x8000_0000_0000_0000_0000_0000_0000_0000int,
        (a < b) == (a.ordinal() < b.ordinal()),
        (a == b) == (a.ordinal() == b.ordinal()),
{
}

/// `false` comes before `true`, as their ordinals do.
pub proof fn lemma_ordinal_bool(a: bool, b: bool)
    ensures
        (!a && b) == (a.ordinal() < b.ordinal()),
        (a == b) == (a.ordinal() == b.ordinal()),
{
}

/// Characters are ordered as their ordinals are, and distinct characters have
/// distinct ordinals: the ordinal is the code point.
pub proof fn lemma_ordinal_char(a: char, b: char)
    ensures
        a.ordinal() == a as u32 as int,
        ((a as u32) < (b as u32)) == (a.ordinal() < b.ordinal()),
        (a == b) == (a.ordinal() == b.ordinal()),
{
}

/// A `i8` weight counts as exactly its value: widening loses nothing.
pub proof fn lemma_amount_i8(x: i8)
    ensures
        x.amount() == x as int,
{
}

/// A `i16` weight counts as exactly its value: widening loses nothing.
pub proof fn lemma_amount_i16(x: i16)
    ensures
        x.amount() == x as int,
{
}

/// A `i32` weight counts as exactly its value: widening loses nothing.
pub proof fn lemma_amount_i32(x: i32)
    ensures
        x.amount() == x as int,
{
}

/// A `i64` weight counts as exactly its value: widening loses nothing.
pub proof fn lemma_amount_i64(x: i64)
    ensures
        x.amount() == x as int,
{
}

/// A `i128` weight counts as exactly its value: widening loses nothing.
pub proof fn lemma_amount_i128(x: i128)
    ensures
        x.amount() == x as int,
{
}

/// A `u8` weight counts as exactly its value: widening loses nothing.
pub proof fn lemma_amount_u8(x: u8)
    ensures
        x.amount() == x as int,
{
}

/// A `u16` weight counts as exactly its value: widening loses nothing.
pub proof fn lemma_amount_u16(x: u16)
    ensures
        x.amount() == x as int,
{
}

/// A `u32` weight counts as exactly its value: widening loses nothing.
pub proof fn lemma_amount_u32(x: u32)
    ensures
        x.amount() == x as int,
{
}

/// A `u64` weight counts as exactly its value: widening loses nothing.
pub proof fn lemma_amount_u64(x: u64)
    ensures
        x.amount() == x as int,
{
}

/// A `bool` weight counts as one when true and zero when false.
pub proof fn lemma_amount_bool(x: bool)
    ensures
        x.amount() == if x { 1int } else { 0int },
{
}

} // verus!
