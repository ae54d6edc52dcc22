use vstd::prelude::*;

verus! {

/// Something that can render itself onto a screen.
pub trait Draw {
    fn draw(&self);
}

/// A screen holding heterogeneous drawable components.
pub struct Screen {
    pub components: Vec<Box<dyn Draw>>,
}

impl Screen {
    /// Draws every component once, in order.
    pub fn run(&self) {
        let n = self.components.len();
        let mut i: usize = 0;
        while i < n
            invariant
                i <= n,
                n == self.components.len(),
            decreases n - i,
        {
            self.components[i].draw();
            i = i + 1;
        }
    }
}

pub struct Button {
    pub width: u32,
    pub height: u32,
    pub label: String,
}

impl Draw for Button {
    fn draw(&self) {
    }
}

pub struct SelectBox {
    pub width: u32,
    pub height: u32,
    pub options: Vec<String>,
}

impl Draw for SelectBox {
    fn draw(&self) {
    }
}

} // verus!
