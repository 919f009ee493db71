//! A brace that turns into a devil, and a devil that arms itself with a bar.
use vstd::prelude::*;
use std::marker::PhantomData;
use vstd::std_specs::convert::IntoSpec;

verus! {

pub struct Brace {
    pub x: i32,
}

impl Brace {
    /// A devil with the brace's strength raised by `n`, and no weapon.
    pub fn transform(&self, n: i32) -> (devil: Devil)
        requires
            i32::MIN <= self.x + n <= i32::MAX,
        ensures
            devil.hp == self.x + n,
            devil.weapon is None,
    {
        Devil { hp: self.x + n, weapon: None }
    }
}

pub struct Bar<'a> {
    pub tasty: &'a str,
}

pub struct Foo<'a, B> where B: 'a + Into<Bar<'a>> {
    pub brace: Brace,
    /// buz is of generic type B, and is able to be turned into bar.
    pub buz: Option<B>,
    /// A marker that ties the lifetime 'a to B.
    pub phantom: PhantomData<&'a B>,
}

impl<'a, B: Into<Bar<'a>>> Foo<'a, B> {
    /// Consumes the foo: its brace becomes a devil of strength `x + 12345`,
    /// and its buz is taken out.
    pub fn transform_and_arm(self)
        requires
            self.buz is Some,
            i32::MIN <= self.brace.x + 12345 <= i32::MAX,
    {
        let brace1: Brace = self.brace;
        let devil: Devil = brace1.transform(12345);
        let buz = self.buz.unwrap();
    }
}

pub struct Devil<'a> {
    pub hp: i32,
    pub weapon: Option<Bar<'a>>,
}

/// `armed` is `devil` armed with `biu`: as strong, and with the bar that
/// `biu` turns into as its weapon.
pub open spec fn armed_with<'a, B: Into<Bar<'a>>>(devil: Devil<'a>, biu: B, armed: Devil<'a>) -> bool {
    &&& armed.hp == devil.hp
    &&& (armed.weapon matches Some(w) && call_ensures(B::into, (biu,), w))
}

/// Arming twice is arming with the second: the later weapon replaces the
/// earlier one, and the strength stays.
pub proof fn lemma_second_arm_overrides<'a, B1: Into<Bar<'a>>, B2: Into<Bar<'a>>>(
    devil: Devil<'a>,
    first: B1,
    once: Devil<'a>,
    second: B2,
    twice: Devil<'a>,
)
    requires
        armed_with(devil, first, once),
        armed_with(once, second, twice),
    ensures
        armed_with(devil, second, twice),
{
}

impl<'a> Devil<'a> {
    /// The devil, with `biu` turned into a bar as its weapon.
    pub fn arm<B: Into<Bar<'a>>>(self, biu: B) -> (armed: Devil<'a>)
        ensures
            armed.hp == self.hp,
            armed_with(self, biu, armed),
            B::obeys_into_spec() ==> armed.weapon == Some(biu.into_spec()),
    {
        let mut devil = self;
        devil.weapon = Some(biu.into());
        devil
    }
}

} // verus!
