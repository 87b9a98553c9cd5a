//! Colors, how they are written, and the rules that pick one for a name.

use hex_color::HexColor;
use regex::Regex;
use vstd::prelude::*;

verus! {

/// A color with its opacity: alpha, red, green and blue, eight bits each, from
/// the highest to the lowest.
#[derive(Clone, Copy, Debug, PartialEq, Eq, Structural)]
pub struct Color {
    pub argb: u32,
}

impl DeepView for Color {
    type V = Color;

    open spec fn deep_view(&self) -> Color {
        *self
    }
}

/// Four bytes as one number, from the highest to the lowest.
pub open spec fn packed(a: u8, b: u8, c: u8, d: u8) -> int {
    a * 0x1_000000 + b * 0x1_0000 + c * 0x1_00 + d
}

fn pack(a: u8, b: u8, c: u8, d: u8) -> (r: u32)
    ensures
        r == packed(a, b, c, d),
{
    a as u32 * 0x1_000000 + b as u32 * 0x1_0000 + c as u32 * 0x1_00 + d as u32
}

impl Color {
    /// The color of a number that holds alpha, red, green and blue.
    pub fn from_argb_encoded(argb: u32) -> (r: Color)
        ensures
            r == (Color { argb }),
    {
        Color { argb }
    }

    /// An opaque color.
    pub fn from_rgb_u8(red: u8, green: u8, blue: u8) -> (r: Color)
        ensures
            r.argb == packed(255, red, green, blue),
    {
        Color { argb: pack(255, red, green, blue) }
    }

    /// The color that nothing has been set for: black without opacity.
    pub fn unset() -> (r: Color)
        ensures
            r == (Color { argb: 0 }),
    {
        Color { argb: 0 }
    }
}

// ---------------------------------------------------------------------------
// Color codes
// ---------------------------------------------------------------------------

/// The value of a hexadecimal digit.
pub open spec fn hex_digit(c: char) -> Option<int> {
    if '0' <= c <= '9' {
        Some(c as int - '0' as int)
    } else if 'a' <= c <= 'f' {
        Some(c as int - 'a' as int + 10)
    } else if 'A' <= c <= 'F' {
        Some(c as int - 'A' as int + 10)
    } else {
        None
    }
}

/// The value of one digit that stands for two of its kind.
pub open spec fn hex_single(c: char) -> Option<u8> {
    match hex_digit(c) {
        Some(n) => Some((17 * n) as u8),
        None => None,
    }
}

/// The value of two digits; a plus sign may stand in place of the first one.
pub open spec fn hex_pair(c: char, d: char) -> Option<u8> {
    match (hex_digit(c), hex_digit(d)) {
        (Some(h), Some(l)) => Some((16 * h + l) as u8),
        (None, Some(l)) => if c == '+' {
            Some(l as u8)
        } else {
            None
        },
        _ => None,
    }
}

/// Red, green, blue and alpha, where all four are there.
pub open spec fn all_four(
    r: Option<u8>,
    g: Option<u8>,
    b: Option<u8>,
    a: Option<u8>,
) -> Option<(u8, u8, u8, u8)> {
    match (r, g, b, a) {
        (Some(r), Some(g), Some(b), Some(a)) => Some((r, g, b, a)),
        _ => None,
    }
}

/// The red, green, blue and alpha that a color code stands for: a number sign
/// and one or two digits each, where alpha may be left out.
pub open spec fn hex_color(s: Seq<char>) -> Option<(u8, u8, u8, u8)> {
    if s.len() == 0 || s[0] != '#' {
        None
    } else if s.len() == 4 {
        all_four(hex_single(s[1]), hex_single(s[2]), hex_single(s[3]), Some(255))
    } else if s.len() == 5 {
        all_four(hex_single(s[1]), hex_single(s[2]), hex_single(s[3]), hex_single(s[4]))
    } else if s.len() == 7 {
        all_four(hex_pair(s[1], s[2]), hex_pair(s[3], s[4]), hex_pair(s[5], s[6]), Some(255))
    } else if s.len() == 9 {
        all_four(
            hex_pair(s[1], s[2]),
            hex_pair(s[3], s[4]),
            hex_pair(s[5], s[6]),
            hex_pair(s[7], s[8]),
        )
    } else {
        None
    }
}

/// `hex_color::HexColor::parse` reads `#RGB`, `#RGBA`, `#RRGGBB` and
/// `#RRGGBBAA`, in upper and lower case, and fails on anything else. Pairs of
/// digits go through `u8::from_str_radix`, which takes a plus sign in front.
#[verifier::external_body]
fn parse_hex_color(s: &str) -> (r: Option<(u8, u8, u8, u8)>)
    ensures
        r == hex_color(s@),
{
    HexColor::parse(s).ok().map(|c| (c.r, c.g, c.b, c.a))
}

/// The color of a code, and white where there is no code or none that can be read.
pub open spec fn code_or_white(code: Option<Seq<char>>) -> (u8, u8, u8, u8) {
    match code {
        Some(s) => match hex_color(s) {
            Some(c) => c,
            None => (255, 255, 255, 255),
        },
        None => (255, 255, 255, 255),
    }
}

/// Reads a color code; white where there is none or none that can be read.
pub fn read_color_code(code: Option<&str>) -> (r: (u8, u8, u8, u8))
    ensures
        r == code_or_white(
            match code {
                Some(s) => Some(s@),
                None => None,
            },
        ),
{
    match code {
        Some(s) => match parse_hex_color(s) {
            Some(c) => c,
            None => (255, 255, 255, 255),
        },
        None => (255, 255, 255, 255),
    }
}

/// The color of a code as a number that holds red, green, blue and alpha.
pub fn color_code_number(code: Option<&str>) -> (r: u32)
    ensures
        ({
            let c = code_or_white(
                match code {
                    Some(s) => Some(s@),
                    None => None,
                },
            );
            r == packed(c.0, c.1, c.2, c.3)
        }),
{
    let (r, g, b, a): (u8, u8, u8, u8) = read_color_code(code);
    pack(r, g, b, a)
}

/// The opaque color of a code.
pub fn color_of_code(code: Option<&str>) -> (r: Color)
    ensures
        ({
            let c = code_or_white(
                match code {
                    Some(s) => Some(s@),
                    None => None,
                },
            );
            r.argb == packed(255, c.0, c.1, c.2)
        }),
{
    let (r, g, b, a): (u8, u8, u8, u8) = read_color_code(code);
    Color::from_rgb_u8(r, g, b)
}

/// The bytes of a color can be read back from its number, from the highest to the
/// lowest.
pub proof fn packed_bytes_are_kept(a: u8, b: u8, c: u8, d: u8)
    ensures
        packed(a, b, c, d) / 0x1_000000 == a,
        packed(a, b, c, d) / 0x1_0000 % 0x1_00 == b,
        packed(a, b, c, d) / 0x1_00 % 0x1_00 == c,
        packed(a, b, c, d) % 0x1_00 == d,
{
}

/// White stands in only where there is no color code that can be read.
pub proof fn white_stands_in(s: Seq<char>, c: (u8, u8, u8, u8))
    ensures
        hex_color(s) == Some(c) ==> code_or_white(Some(s)) == c,
        hex_color(s) is None ==> code_or_white(Some(s)) == (255u8, 255u8, 255u8, 255u8),
        code_or_white(None) == (255u8, 255u8, 255u8, 255u8),
{
}

// ---------------------------------------------------------------------------
// Rules
// ---------------------------------------------------------------------------

/// Whether `regex::Regex::new` takes a pattern.
pub uninterp spec fn regex_compiles(pattern: Seq<char>) -> bool;

/// `regex::Regex::new` compiles a pattern, or fails.
#[verifier::external_body]
fn check_regex(pattern: &str) -> (r: bool)
    ensures
        r == regex_compiles(pattern@),
{
    Regex::new(pattern).is_ok()
}

/// Whether `regex::Regex::is_match` finds a pattern in a text.
pub uninterp spec fn regex_finds(pattern: Seq<char>, text: Seq<char>) -> bool;

/// `regex::Regex::is_match` tells whether a pattern matches somewhere in a text.
#[verifier::external_body]
fn match_regex(pattern: &str, text: &str) -> (r: bool)
    requires
        regex_compiles(pattern@),
    ensures
        r == regex_finds(pattern@, text@),
{
    Regex::new(pattern).unwrap().is_match(text)
}

/// The colors of names by patterns, and the one for all others.
#[derive(Debug)]
pub struct ColorSet {
    pub default: u32,
    pub map: Vec<(String, u32)>,
}

/// The first color of `colors` at whose place `hits` is true; else `default`.
pub open spec fn first_hit(hits: Seq<bool>, colors: Seq<u32>, default: u32) -> u32
    decreases hits.len(),
{
    if hits.len() == 0 {
        default
    } else if hits[0] {
        colors[0]
    } else {
        first_hit(hits.skip(1), colors.skip(1), default)
    }
}

/// The first hit is a hit with none in front of it, and the default comes only
/// where there is no hit.
pub proof fn first_hit_is_first(hits: Seq<bool>, colors: Seq<u32>, default: u32, k: int)
    requires
        hits.len() == colors.len(),
        0 <= k <= hits.len(),
        forall|i: int| 0 <= i < k ==> !#[trigger] hits[i],
        k < hits.len() ==> hits[k],
    ensures
        first_hit(hits, colors, default) == (if k < hits.len() {
            colors[k]
        } else {
            default
        }),
    decreases hits.len(),
{
    if k > 0 {
        assert(!hits[0]);
        assert forall|i: int| 0 <= i < k - 1 implies !#[trigger] hits.skip(1)[i] by {
            assert(hits.skip(1)[i] == hits[i + 1]);
        }
        first_hit_is_first(hits.skip(1), colors.skip(1), default, k - 1);
    }
}

/// Picks the color of the first hit.
pub fn pick_color(hits: &Vec<bool>, rules: &Vec<(String, u32)>, default: u32) -> (r: Color)
    requires
        hits@.len() == rules@.len(),
    ensures
        r.argb == first_hit(hits@, rule_colors(rules.deep_view()), default),
{
    let ghost colors = rule_colors(rules.deep_view());
    let mut i: usize = 0;
    while i < hits.len()
        invariant
            hits@.len() == rules@.len(),
            colors == rule_colors(rules.deep_view()),
            i <= hits@.len(),
            forall|j: int| 0 <= j < i ==> !#[trigger] hits@[j],
        decreases hits@.len() - i,
    {
        if hits[i] {
            proof {
                first_hit_is_first(hits@, colors, default, i as int);
            }
            return Color { argb: rules[i].1 };
        }
        i = i + 1;
    }
    proof {
        first_hit_is_first(hits@, colors, default, i as int);
    }
    Color { argb: default }
}

/// The colors of rules.
pub open spec fn rule_colors(rules: Seq<(Seq<char>, u32)>) -> Seq<u32> {
    rules.map_values(|rule: (Seq<char>, u32)| rule.1)
}

/// Which rules have a pattern that is found in a name.
pub open spec fn rule_hits(rules: Seq<(Seq<char>, u32)>, name: Seq<char>) -> Seq<bool> {
    rules.map_values(|rule: (Seq<char>, u32)| regex_finds(rule.0, name))
}

/// A name has the color of the first rule whose pattern is found in it, and the
/// default color where none is.
pub proof fn first_matching_rule_colors(
    rules: Seq<(Seq<char>, u32)>,
    name: Seq<char>,
    default: u32,
    k: int,
)
    requires
        0 <= k <= rules.len(),
        forall|i: int| 0 <= i < k ==> !regex_finds((#[trigger] rules[i]).0, name),
        k < rules.len() ==> regex_finds(rules[k].0, name),
    ensures
        first_hit(rule_hits(rules, name), rule_colors(rules), default) == (if k < rules.len() {
            rules[k].1
        } else {
            default
        }),
{
    let hits = rule_hits(rules, name);
    assert forall|i: int| 0 <= i < k implies !#[trigger] hits[i] by {
        assert(hits[i] == regex_finds(rules[i].0, name));
    }
    first_hit_is_first(hits, rule_colors(rules), default, k);
}

/// Whether every pattern compiles.
pub open spec fn all_compile(rules: Seq<(Seq<char>, u32)>) -> bool {
    forall|i: int| 0 <= i < rules.len() ==> regex_compiles((#[trigger] rules[i]).0)
}

/// All patterns compile if each one does.
pub proof fn rules_compile_one_by_one(rules: Seq<(Seq<char>, u32)>, more: (Seq<char>, u32))
    ensures
        all_compile(Seq::empty()),
        all_compile(rules.push(more)) <==> all_compile(rules) && regex_compiles(more.0),
{
    let all = rules.push(more);
    if all_compile(all) {
        assert forall|i: int| 0 <= i < rules.len() implies regex_compiles(
            (#[trigger] rules[i]).0,
        ) by {
            assert(all[i] == rules[i]);
        }
        assert(all[rules.len() as int] == more);
    }
}

/// Rules for colors whose patterns compile.
#[derive(Debug)]
pub struct ColorRules {
    rules: Vec<(String, u32)>,
    default: u32,
}

impl ColorRules {
    #[verifier::type_invariant]
    spec fn compiled(self) -> bool {
        all_compile(self.rules.deep_view())
    }

    /// The patterns and their colors.
    pub closed spec fn rules(self) -> Seq<(Seq<char>, u32)> {
        self.rules.deep_view()
    }

    /// The color of names that no pattern is found in.
    pub closed spec fn default(self) -> u32 {
        self.default
    }

    /// The rules of a set of colors, where every pattern compiles.
    pub fn compile(set: ColorSet) -> (r: Option<ColorRules>)
        ensures
            match r {
                Some(c) => all_compile(set.map.deep_view()) && c.rules() == set.map.deep_view()
                    && c.default() == set.default,
                None => !all_compile(set.map.deep_view()),
            },
    {
        let mut i: usize = 0;
        let ghost all = set.map.deep_view();
        while i < set.map.len()
            invariant
                all == set.map.deep_view(),
                i <= set.map@.len(),
                forall|j: int| 0 <= j < i ==> regex_compiles((#[trigger] all[j]).0),
            decreases set.map@.len() - i,
        {
            assert(all[i as int] == set.map@[i as int].deep_view());
            if !check_regex(set.map[i].0.as_str()) {
                return None;
            }
            i = i + 1;
        }
        Some(ColorRules { rules: set.map, default: set.default })
    }

    /// The color that names get by default.
    pub fn default_color(&self) -> (r: Color)
        ensures
            r.argb == self.default(),
    {
        Color { argb: self.default }
    }

    /// The color of a name: that of the first rule whose pattern is found in it.
    pub fn color_of(&self, name: &str) -> (r: Color)
        ensures
            r.argb == first_hit(
                rule_hits(self.rules(), name@),
                rule_colors(self.rules()),
                self.default(),
            ),
    {
        proof {
            use_type_invariant(self);
        }
        let mut hits: Vec<bool> = Vec::new();
        let ghost all = self.rules.deep_view();
        let mut i: usize = 0;
        while i < self.rules.len()
            invariant
                all == self.rules.deep_view(),
                all_compile(all),
                i <= self.rules@.len(),
                hits@.len() == i,
                forall|j: int| 0 <= j < i ==> #[trigger] hits@[j] == regex_finds(all[j].0, name@),
            decreases self.rules@.len() - i,
        {
            assert(all[i as int] == self.rules@[i as int].deep_view());
            hits.push(match_regex(self.rules[i].0.as_str(), name));
            i = i + 1;
        }
        assert(hits@ =~= rule_hits(all, name@));
        pick_color(&hits, &self.rules, self.default)
    }
}

} // verus!
