//! The layer table of the DXF preview writer: layers keep the colour they
//! were first registered with, and render as an R12 `LAYER` table.
use vstd::prelude::*;

use crate::text::{chars_equal, chars_of, string_push};

verus! {

/// The character of a decimal digit `d` (`0 <= d < 10`).
pub open spec fn digit_char(d: int) -> char {
    (d + 48) as char
}

/// The decimal digits of `n`, most significant first, without leading zeros.
pub open spec fn digits(n: nat) -> Seq<char>
    decreases n,
{
    if n < 10 {
        seq![digit_char(n as int)]
    } else {
        digits(n / 10).push(digit_char((n % 10) as int))
    }
}

/// `n` in decimal, with a leading `-` when negative (Rust's `{}` for integers).
pub open spec fn decimal(n: int) -> Seq<char> {
    if n < 0 {
        seq!['-'] + digits((-n) as nat)
    } else {
        digits(n as nat)
    }
}

fn digit(d: u64) -> (r: char)
    requires
        d < 10,
    ensures
        r == digit_char(d as int),
{
    let b: u8 = 48u8 + (d as u8);
    b as char
}

/// Appends the decimal digits of `n`.
pub(crate) fn push_digits(s: &mut String, n: u64)
    ensures
        final(s)@ == old(s)@ + digits(n as nat),
{
    let mut acc: Vec<char> = Vec::new();
    let mut m: u64 = n;
    while m >= 10
        invariant
            digits(n as nat) == digits(m as nat) + acc@,
        decreases m,
    {
        let c = digit(m % 10);
        let ghost before = acc@;
        assert(digits(m as nat) == digits((m / 10) as nat).push(c));
        acc.insert(0, c);
        assert(digits((m / 10) as nat) + acc@ =~= digits((m / 10) as nat).push(c) + before);
        m = m / 10;
    }
    let ghost before = acc@;
    let first = digit(m);
    acc.insert(0, first);
    assert(acc@ =~= digits(m as nat) + before);
    let ghost start = s@;
    let mut i: usize = 0;
    while i < acc.len()
        invariant
            i <= acc@.len(),
            s@ == start + acc@.take(i as int),
        decreases acc@.len() - i,
    {
        string_push(s, acc[i]);
        assert(acc@.take(i + 1) =~= acc@.take(i as int).push(acc@[i as int]));
        i = i + 1;
    }
    assert(acc@.take(acc@.len() as int) =~= acc@);
}

/// Appends `n` in decimal (see [`decimal`]).
pub fn push_decimal(s: &mut String, n: i64)
    ensures
        final(s)@ == old(s)@ + decimal(n as int),
{
    if n < 0 {
        string_push(s, '-');
        let ghost mid = s@;
        let m: u64 = if n == i64::MIN {
            9223372036854775808u64
        } else {
            (-n) as u64
        };
        push_digits(s, m);
        assert(s@ =~= old(s)@ + decimal(n as int));
    } else {
        push_digits(s, n as u64);
    }
}

/// The entry of one layer in the `LAYER` table: name, flags 0, colour
/// (AutoCAD Color Index) and line type `CONTINUOUS`.
pub open spec fn layer_entry(name: Seq<char>, color: int) -> Seq<char> {
    "0\nLAYER\n2\n"@ + name + "\n70\n0\n62\n"@ + decimal(color) + "\n6\nCONTINUOUS\n"@
}

/// Appends the `LAYER` table entry of `name` with colour `color`.
pub fn push_layer(s: &mut String, name: &str, color: i32)
    ensures
        final(s)@ == old(s)@ + layer_entry(name@, color as int),
{
    s.append("0\nLAYER\n2\n");
    s.append(name);
    s.append("\n70\n0\n62\n");
    push_decimal(s, color as i64);
    s.append("\n6\nCONTINUOUS\n");
    assert(s@ =~= old(s)@ + layer_entry(name@, color as int));
}

/// The layers of a drawing, in registration order, each with its colour.
pub struct LayerTable {
    layers: Vec<(String, i32)>,
}

/// Whether a layer called `name` is in `layers`.
pub open spec fn has_layer(layers: Seq<(Seq<char>, i32)>, name: Seq<char>) -> bool {
    exists|k: int| 0 <= k < layers.len() && (#[trigger] layers[k]).0 == name
}

/// `layers` after registering `name` with `color`: unchanged when the name
/// is already there, else with the layer appended.
pub open spec fn with_layer(layers: Seq<(Seq<char>, i32)>, name: Seq<char>, color: i32) -> Seq<
    (Seq<char>, i32),
> {
    if has_layer(layers, name) {
        layers
    } else {
        layers.push((name, color))
    }
}

/// Registering a layer twice keeps the first colour: the second
/// registration, whatever its colour, changes nothing.
pub proof fn law_first_colour_wins(
    layers: Seq<(Seq<char>, i32)>,
    name: Seq<char>,
    first: i32,
    second: i32,
)
    ensures
        with_layer(with_layer(layers, name, first), name, second) == with_layer(layers, name, first),
        has_layer(with_layer(layers, name, first), name),
{
    let once = with_layer(layers, name, first);
    if !has_layer(layers, name) {
        assert(once[layers.len() as int].0 == name);
    }
}

/// The entries of `layers` in the `LAYER` table, in order.
pub open spec fn entries_text(layers: Seq<(Seq<char>, i32)>) -> Seq<char>
    decreases layers.len(),
{
    if layers.len() == 0 {
        seq![]
    } else {
        entries_text(layers.drop_last()) + layer_entry(layers.last().0, layers.last().1 as int)
    }
}

/// The `TABLES` section: a `LAYER` table holding the registered layers, or
/// layer `0` in white when none is registered, so that the table is never
/// empty.
pub open spec fn tables_text(layers: Seq<(Seq<char>, i32)>) -> Seq<char> {
    "0\nSECTION\n2\nTABLES\n0\nTABLE\n2\nLAYER\n70\n"@ + decimal(
        if layers.len() == 0 {
            1
        } else {
            layers.len() as int
        },
    ) + seq!['\n'] + (if layers.len() == 0 {
        layer_entry("0"@, 7)
    } else {
        entries_text(layers)
    }) + "0\nENDTAB\n0\nENDSEC\n"@
}

impl View for LayerTable {
    type V = Seq<(Seq<char>, i32)>;

    closed spec fn view(&self) -> Seq<(Seq<char>, i32)> {
        self.layers@.map_values(|p: (String, i32)| (p.0@, p.1))
    }
}

impl LayerTable {
    /// No layers.
    pub fn new() -> (r: Self)
        ensures
            r@ == Seq::<(Seq<char>, i32)>::empty(),
    {
        let r = LayerTable { layers: Vec::new() };
        assert(r@ =~= Seq::<(Seq<char>, i32)>::empty());
        r
    }

    /// Register a layer with an ACI colour (1=red 2=yellow 3=green 4=cyan
    /// 5=blue 6=magenta 7=white). Idempotent: a name already registered
    /// keeps its first colour.
    pub fn add_layer(&mut self, name: &str, color: i32)
        ensures
            final(self)@ == with_layer(old(self)@, name@, color),
    {
        let c = chars_of(name);
        let mut i: usize = 0;
        while i < self.layers.len()
            invariant
                c@ == name@,
                i <= self.layers@.len(),
                forall|k: int| 0 <= k < i ==> (#[trigger] self@[k]).0 != name@,
            decreases self.layers@.len() - i,
        {
            let n = chars_of(self.layers[i].0.as_str());
            if chars_equal(n.as_slice(), c.as_slice()) {
                assert(self@[i as int].0 == name@);
                return;
            }
            i = i + 1;
        }
        let ghost before = self@;
        self.layers.push((name.to_owned(), color));
        assert(self@ =~= before.push((name@, color)));
    }

    /// The number of registered layers.
    pub fn len(&self) -> (r: usize)
        ensures
            r == self@.len(),
    {
        self.layers.len()
    }

    /// The name and colour of the `k`-th registered layer.
    pub fn layer(&self, k: usize) -> (r: (&str, i32))
        requires
            k < self@.len(),
        ensures
            r.0@ == self@[k as int].0,
            r.1 == self@[k as int].1,
    {
        (self.layers[k].0.as_str(), self.layers[k].1)
    }

    /// The `TABLES` section of the document (see [`tables_text`]).
    pub fn tables_section(&self) -> (r: String)
        ensures
            r@ == tables_text(self@),
    {
        let mut s = String::new();
        s.append("0\nSECTION\n2\nTABLES\n0\nTABLE\n2\nLAYER\n70\n");
        let n = self.layers.len();
        let count: u64 = if n == 0 {
            1
        } else {
            n as u64
        };
        push_digits(&mut s, count);
        string_push(&mut s, '\n');
        let ghost head = s@;
        if n == 0 {
            push_layer(&mut s, "0", 7);
        } else {
            let mut i: usize = 0;
            while i < n
                invariant
                    n == self@.len(),
                    i <= n,
                    s@ == head + entries_text(self@.take(i as int)),
                decreases n - i,
            {
                let ghost t = self@.take(i + 1);
                assert(t.drop_last() =~= self@.take(i as int));
                push_layer(&mut s, self.layers[i].0.as_str(), self.layers[i].1);
                assert(s@ =~= head + entries_text(t));
                i = i + 1;
            }
            assert(self@.take(n as int) =~= self@);
        }
        s.append("0\nENDTAB\n0\nENDSEC\n");
        assert(s@ =~= tables_text(self@));
        s
    }
}

} // verus!
