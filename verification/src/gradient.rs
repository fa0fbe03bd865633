//! Gradient stops for the environment map's sky colors.  Stops are
//! registered as packed color words and spaced uniformly; interpolating
//! between two stops for a sample position is the caller's float work,
//! done on the colors this module hands out.

use vstd::prelude::*;
use crate::color::color_from_u32;
use crate::color::spec_color_of;
use crate::color::Color;

verus! {

/// An ordered run of color stops, uniformly spaced over `[0, 1]`.
pub struct Gradient {
    stops: Vec<Color>,
}

impl View for Gradient {
    type V = Seq<Seq<u8>>;

    closed spec fn view(&self) -> Seq<Seq<u8>> {
        Seq::new(self.stops@.len(), |i: int| self.stops@[i]@)
    }
}

impl Gradient {
    /// A gradient with no stops yet.
    pub fn new() -> (g: Gradient)
        ensures
            g@ == Seq::<Seq<u8>>::empty(),
    {
        let g = Gradient { stops: Vec::new() };
        proof {
            assert(g@ =~= Seq::<Seq<u8>>::empty());
        }
        g
    }

    /// Registers the next stop, given as a packed `0xAARRGGBB` word.
    pub fn add_stop(&mut self, color: u32)
        ensures
            final(self)@ == old(self)@.push(spec_color_of(color)),
    {
        let col = color_from_u32(color);
        self.stops.push(col);
        proof {
            assert(self@ =~= old(self)@.push(spec_color_of(color)));
        }
    }

    /// How many stops are registered.
    pub fn stop_count(&self) -> (n: usize)
        ensures
            n == self@.len(),
    {
        self.stops.len()
    }

    /// The `i`-th stop's color.
    pub fn stop(&self, i: usize) -> (col: Color)
        requires
            i < self@.len(),
        ensures
            col@ == self@[i as int],
    {
        self.stops[i]
    }
}

/// The metallic purple sky gradient of the demo scene.
pub fn metallic() -> (g: Gradient)
    ensures
        g@ == seq![
            spec_color_of(0xff772884),
            spec_color_of(0xffDFC0FB),
            spec_color_of(0xff842996),
            spec_color_of(0xff671D77),
            spec_color_of(0xff42104D),
            spec_color_of(0xffD3B4E9),
        ],
{
    let mut gradient = Gradient::new();
    gradient.add_stop(0xff772884);
    gradient.add_stop(0xffDFC0FB);
    gradient.add_stop(0xff842996);
    gradient.add_stop(0xff671D77);
    gradient.add_stop(0xff42104D);
    gradient.add_stop(0xffD3B4E9);
    proof {
        assert(gradient@ =~= seq![
            spec_color_of(0xff772884),
            spec_color_of(0xffDFC0FB),
            spec_color_of(0xff842996),
            spec_color_of(0xff671D77),
            spec_color_of(0xff42104D),
            spec_color_of(0xffD3B4E9),
        ]);
    }
    gradient
}

} // verus!
