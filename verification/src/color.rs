use vstd::prelude::*;

verus! {

/// A colour category that a hue can be judged to have. The categories are
/// nominal: two of them are either the same or different, nothing more.
#[derive(Clone, Copy, Debug, PartialEq, Eq, Hash, Structural)]
pub enum Color {
    Red,
    Orange,
    Yellow,
    Green,
    Cyan,
    Blue,
    Magenta,
}

/// A display colour, as red, green and blue components.
#[derive(Clone, Copy, Debug, PartialEq, Eq, Hash, Structural)]
pub struct Rgb {
    pub red: u8,
    pub green: u8,
    pub blue: u8,
}

/// The number of colour categories.
pub const VARIANT_COUNT: usize = 7;

/// The categories in their fixed order.
pub open spec fn all_variants() -> Seq<Color> {
    seq![
        Color::Red,
        Color::Orange,
        Color::Yellow,
        Color::Green,
        Color::Cyan,
        Color::Blue,
        Color::Magenta,
    ]
}

impl Color {
    /// The position of the category in the fixed order.
    pub open spec fn ordinal_of(self) -> nat {
        match self {
            Color::Red => 0,
            Color::Orange => 1,
            Color::Yellow => 2,
            Color::Green => 3,
            Color::Cyan => 4,
            Color::Blue => 5,
            Color::Magenta => 6,
        }
    }

    /// The text of the category's label.
    pub open spec fn label_text(self) -> Seq<char> {
        match self {
            Color::Red => "Red"@,
            Color::Orange => "Orange"@,
            Color::Yellow => "Yellow"@,
            Color::Green => "Green"@,
            Color::Cyan => "Cyan"@,
            Color::Blue => "Blue"@,
            Color::Magenta => "Magenta"@,
        }
    }

    /// The display colour of the category.
    pub open spec fn display(self) -> Rgb {
        match self {
            Color::Red => (Rgb { red: 255, green: 0, blue: 0 }),
            Color::Orange => (Rgb { red: 255, green: 127, blue: 0 }),
            Color::Yellow => (Rgb { red: 255, green: 255, blue: 0 }),
            Color::Green => (Rgb { red: 0, green: 255, blue: 0 }),
            Color::Cyan => (Rgb { red: 0, green: 255, blue: 255 }),
            Color::Blue => (Rgb { red: 0, green: 0, blue: 255 }),
            Color::Magenta => (Rgb { red: 255, green: 0, blue: 255 }),
        }
    }

    /// The label shown for the category.
    pub fn label(&self) -> (text: &'static str)
        ensures
            text@ == self.label_text(),
    {
        match self {
            Color::Red => "Red",
            Color::Orange => "Orange",
            Color::Yellow => "Yellow",
            Color::Green => "Green",
            Color::Cyan => "Cyan",
            Color::Blue => "Blue",
            Color::Magenta => "Magenta",
        }
    }

    /// The colour in which the category is shown.
    pub fn color(&self) -> (rgb: Rgb)
        ensures
            rgb == self.display(),
    {
        match self {
            Color::Red => Rgb { red: 255, green: 0, blue: 0 },
            Color::Orange => Rgb { red: 255, green: 127, blue: 0 },
            Color::Yellow => Rgb { red: 255, green: 255, blue: 0 },
            Color::Green => Rgb { red: 0, green: 255, blue: 0 },
            Color::Cyan => Rgb { red: 0, green: 255, blue: 255 },
            Color::Blue => Rgb { red: 0, green: 0, blue: 255 },
            Color::Magenta => Rgb { red: 255, green: 0, blue: 255 },
        }
    }

    /// The position of the category in the fixed order, from 0.
    pub fn ordinal(&self) -> (n: usize)
        ensures
            n == self.ordinal_of(),
            n < VARIANT_COUNT,
            all_variants()[n as int] == *self,
    {
        match self {
            Color::Red => 0,
            Color::Orange => 1,
            Color::Yellow => 2,
            Color::Green => 3,
            Color::Cyan => 4,
            Color::Blue => 5,
            Color::Magenta => 6,
        }
    }

    /// The category at a position of the fixed order, if there is one.
    pub fn from_ordinal(n: usize) -> (found: Option<Color>)
        ensures
            n < VARIANT_COUNT ==> found == Some(all_variants()[n as int]),
            n >= VARIANT_COUNT ==> found.is_none(),
    {
        if n == 0 {
            Some(Color::Red)
        } else if n == 1 {
            Some(Color::Orange)
        } else if n == 2 {
            Some(Color::Yellow)
        } else if n == 3 {
            Some(Color::Green)
        } else if n == 4 {
            Some(Color::Cyan)
        } else if n == 5 {
            Some(Color::Blue)
        } else if n == 6 {
            Some(Color::Magenta)
        } else {
            None
        }
    }

    /// The number of categories.
    pub fn variant_count() -> (n: usize)
        ensures
            n == VARIANT_COUNT,
            n == all_variants().len(),
    {
        VARIANT_COUNT
    }

    /// All categories, in their fixed order.
    pub fn variants() -> (all: Vec<Color>)
        ensures
            all@ == all_variants(),
    {
        let mut all: Vec<Color> = Vec::new();
        all.push(Color::Red);
        all.push(Color::Orange);
        all.push(Color::Yellow);
        all.push(Color::Green);
        all.push(Color::Cyan);
        all.push(Color::Blue);
        all.push(Color::Magenta);
        assert(all@ =~= all_variants());
        all
    }
}

/// Every category stands at its own position of the fixed order, and at no
/// other: the categories are pairwise distinct.
pub proof fn lemma_variants_distinct(a: Color, b: Color)
    ensures
        a.ordinal_of() < all_variants().len(),
        all_variants()[a.ordinal_of() as int] == a,
        a.ordinal_of() == b.ordinal_of() <==> a == b,
{
}

} // verus!
