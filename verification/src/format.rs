//! Formatting of a sheet: typography, colours and conditional rules, in three
//! scopes.
//!
//! Nothing is stored per row. A column's format is one entry whatever its rows; a
//! rectangle's is one entry whatever its cells; and single cells that were picked
//! out by hand are the only ones with an entry of their own. Later scopes win:
//! column, then range, then cell.

use crate::rules::{CellStyle, ConditionalRule, NumberFormat};
use crate::table::{Rgb, TableRange};
use crate::value::F32;
use vstd::prelude::*;

pub mod presets;
pub mod layers;
pub mod sheet;

pub use crate::format::sheet::SheetFormat;

verus! {

/// The two font families a cell can be drawn in.
#[derive(Clone, Copy, Debug, PartialEq, Eq, Structural)]
pub enum FontFamily {
    Proportional,
    Monospace,
}

impl Default for FontFamily {
    fn default() -> (f: FontFamily)
        ensures
            f == FontFamily::Proportional,
    {
        FontFamily::Proportional
    }
}

/// Type styling of a cell. What is not set is inherited.
#[derive(Clone, Copy, Debug, PartialEq, Eq, Structural)]
pub struct Typography {
    pub family: Option<FontFamily>,
    /// Points.
    pub size: Option<F32>,
    pub bold: Option<bool>,
    pub italic: Option<bool>,
    pub underline: Option<bool>,
    pub strikethrough: Option<bool>,
}

/// A type style with nothing left to inherit.
#[derive(Clone, Copy, Debug, PartialEq, Eq, Structural)]
pub struct ResolvedType {
    pub family: FontFamily,
    pub size: F32,
    pub bold: bool,
    pub italic: bool,
    pub underline: bool,
    pub strikethrough: bool,
}

/// The first of two that is set.
pub open spec fn first_set<T>(a: Option<T>, b: Option<T>) -> Option<T> {
    if a is Some {
        a
    } else {
        b
    }
}

impl Default for Typography {
    fn default() -> (t: Typography)
        ensures
            t == Typography::inherit(),
    {
        Typography {
            family: None,
            size: None,
            bold: None,
            italic: None,
            underline: None,
            strikethrough: None,
        }
    }
}

impl Typography {
    pub open spec fn inherit() -> Typography {
        Typography {
            family: None,
            size: None,
            bold: None,
            italic: None,
            underline: None,
            strikethrough: None,
        }
    }

    /// Layered over another: what is set wins.
    pub open spec fn over(self, under: Typography) -> Typography {
        Typography {
            family: first_set(self.family, under.family),
            size: first_set(self.size, under.size),
            bold: first_set(self.bold, under.bold),
            italic: first_set(self.italic, under.italic),
            underline: first_set(self.underline, under.underline),
            strikethrough: first_set(self.strikethrough, under.strikethrough),
        }
    }

    pub fn is_empty(&self) -> (b: bool)
        ensures
            b == (*self == Typography::inherit()),
    {
        self.family.is_none() && self.size.is_none() && self.bold.is_none() && self.italic.is_none()
            && self.underline.is_none() && self.strikethrough.is_none()
    }

    /// Layer `self` over `out`.
    pub fn apply_to(&self, out: &mut Typography)
        ensures
            *final(out) == self.over(*old(out)),
    {
        if self.family.is_some() {
            out.family = self.family;
        }
        if self.size.is_some() {
            out.size = self.size;
        }
        if self.bold.is_some() {
            out.bold = self.bold;
        }
        if self.italic.is_some() {
            out.italic = self.italic;
        }
        if self.underline.is_some() {
            out.underline = self.underline;
        }
        if self.strikethrough.is_some() {
            out.strikethrough = self.strikethrough;
        }
    }

    /// Concrete values, for a renderer.
    pub fn resolved(&self, default_size: F32) -> (r: ResolvedType)
        ensures
            r == (ResolvedType {
                family: match self.family {
                    Some(f) => f,
                    None => FontFamily::Proportional,
                },
                size: match self.size {
                    Some(s) => s,
                    None => default_size,
                },
                bold: self.bold == Some(true),
                italic: self.italic == Some(true),
                underline: self.underline == Some(true),
                strikethrough: self.strikethrough == Some(true),
            }),
    {
        ResolvedType {
            family: match self.family {
                Some(f) => f,
                None => FontFamily::default(),
            },
            size: match self.size {
                Some(s) => s,
                None => default_size,
            },
            bold: is_on(self.bold),
            italic: is_on(self.italic),
            underline: is_on(self.underline),
            strikethrough: is_on(self.strikethrough),
        }
    }

    pub fn with_bold(self, on: bool) -> (t: Typography)
        ensures
            t == (Typography { bold: Some(on), ..self }),
    {
        Typography { bold: Some(on), ..self }
    }

    pub fn with_italic(self, on: bool) -> (t: Typography)
        ensures
            t == (Typography { italic: Some(on), ..self }),
    {
        Typography { italic: Some(on), ..self }
    }

    pub fn with_underline(self, on: bool) -> (t: Typography)
        ensures
            t == (Typography { underline: Some(on), ..self }),
    {
        Typography { underline: Some(on), ..self }
    }

    pub fn with_size(self, pt: F32) -> (t: Typography)
        ensures
            t == (Typography { size: Some(pt), ..self }),
    {
        Typography { size: Some(pt), ..self }
    }

    pub fn with_family(self, f: FontFamily) -> (t: Typography)
        ensures
            t == (Typography { family: Some(f), ..self }),
    {
        Typography { family: Some(f), ..self }
    }
}

fn is_on(o: Option<bool>) -> (b: bool)
    ensures
        b == (o == Some(true)),
{
    match o {
        Some(b) => b,
        None => false,
    }
}

/// Layering is associative: a column, a range and a cell may be layered in any
/// grouping.
pub proof fn layering_is_associative(a: Typography, b: Typography, c: Typography)
    ensures
        a.over(b).over(c) == a.over(b.over(c)),
        a.over(Typography::inherit()) == a,
        Typography::inherit().over(a) == a,
{
}

/// The smallest point size offered, 6, as the bits of a number.
pub const MIN_FONT_PT: u32 = 0x40c0_0000;

/// The largest point size offered, 72, as the bits of a number.
pub const MAX_FONT_PT: u32 = 0x4290_0000;

/// The nearest point size that can be drawn.
pub open spec fn clamped_pt(pt: F32) -> F32 {
    if pt.lt_spec(F32(MIN_FONT_PT)) {
        F32(MIN_FONT_PT)
    } else if F32(MAX_FONT_PT).lt_spec(pt) {
        F32(MAX_FONT_PT)
    } else {
        pt
    }
}

/// Clamp a point size into the range that can be drawn.
pub fn clamp_font_pt(pt: F32) -> (r: F32)
    ensures
        r == clamped_pt(pt),
        !pt.nan_spec() ==> !r.lt_spec(F32(MIN_FONT_PT)) && !F32(MAX_FONT_PT).lt_spec(r),
{
    if pt.less_than(F32(MIN_FONT_PT)) {
        F32(MIN_FONT_PT)
    } else if F32(MAX_FONT_PT).less_than(pt) {
        F32(MAX_FONT_PT)
    } else {
        pt
    }
}

/// A look picked by hand, with no condition. Setting only a fill leaves the text
/// colour alone.
#[derive(Clone, Copy, Debug, PartialEq, Eq, Structural)]
pub struct ManualStyle {
    pub fill: Option<Rgb>,
    pub text: Option<Rgb>,
    pub typography: Typography,
}

impl Default for ManualStyle {
    fn default() -> (m: ManualStyle)
        ensures
            m.blank(),
    {
        ManualStyle { fill: None, text: None, typography: Typography::default() }
    }
}

impl ManualStyle {
    /// The look that sets nothing.
    pub open spec fn plain() -> ManualStyle {
        ManualStyle { fill: None, text: None, typography: Typography::inherit() }
    }

    pub open spec fn blank(self) -> bool {
        self.fill is None && self.text is None && self.typography == Typography::inherit()
    }

    pub fn is_empty(&self) -> (b: bool)
        ensures
            b == self.blank(),
    {
        self.fill.is_none() && self.text.is_none() && self.typography.is_empty()
    }

    pub fn apply_to(&self, out: &mut CellStyle)
        ensures
            *final(out) == old(out).under(self.fill, self.text, self.typography),
    {
        if self.fill.is_some() {
            out.fill = self.fill;
        }
        if self.text.is_some() {
            out.text = self.text;
        }
        let mut t = out.typography;
        self.typography.apply_to(&mut t);
        out.typography = t;
    }

    /// The rule that paints this look.
    pub open spec fn rule(self) -> ConditionalRule {
        ConditionalRule::Manual { fill: self.fill, text: self.text, typography: self.typography }
    }
}

/// One entry of a column's plan: a rule, and the rows it is restricted to.
#[derive(Clone, Copy, Debug)]
pub struct PlanEntry<'a> {
    pub rule: &'a ConditionalRule,
    pub rows: Option<(u32, u32)>,
}

pub ghost struct PlanStep {
    pub rule: ConditionalRule,
    pub rows: Option<(u32, u32)>,
}

impl PlanStep {
    pub open spec fn reaches(self, row: u32) -> bool {
        match self.rows {
            None => true,
            Some((a, b)) => a <= row <= b,
        }
    }
}

impl<'a> View for PlanEntry<'a> {
    type V = PlanStep;

    open spec fn view(&self) -> PlanStep {
        PlanStep { rule: *self.rule, rows: self.rows }
    }
}

impl<'a> PlanEntry<'a> {
    pub fn covers(&self, row: u32) -> (b: bool)
        ensures
            b == self@.reaches(row),
    {
        match self.rows {
            None => true,
            Some((a, b)) => row >= a && row <= b,
        }
    }
}

pub open spec fn plan_steps<'a>(plan: Seq<PlanEntry<'a>>) -> Seq<PlanStep> {
    plan.map_values(|e: PlanEntry<'a>| e@)
}

// ------------------------------------------------------------------ scopes --

/// Formatting of a whole column, present and future rows alike.
#[derive(Clone, Debug, PartialEq)]
pub struct ColumnFormat {
    pub format: NumberFormat,
    /// Evaluated in order; later ones win.
    pub rules: Vec<ConditionalRule>,
}

#[verifier::ext_equal]
pub ghost struct ColumnFormatView {
    pub format: NumberFormat,
    pub rules: Seq<ConditionalRule>,
}

impl View for ColumnFormat {
    type V = ColumnFormatView;

    open spec fn view(&self) -> ColumnFormatView {
        ColumnFormatView { format: self.format, rules: self.rules@ }
    }
}

impl ColumnFormatView {
    pub open spec fn fresh() -> ColumnFormatView {
        ColumnFormatView { format: NumberFormat::General, rules: Seq::empty() }
    }

    pub open spec fn inert(self) -> bool {
        self.format is General && self.rules.len() == 0
    }
}

impl Default for ColumnFormat {
    fn default() -> (c: ColumnFormat)
        ensures
            c@ == ColumnFormatView::fresh(),
    {
        ColumnFormat { format: NumberFormat::General, rules: Vec::new() }
    }
}

pub(crate) fn is_general(f: &NumberFormat) -> (b: bool)
    ensures
        b == (*f is General),
{
    match f {
        NumberFormat::General => true,
        _ => false,
    }
}

impl ColumnFormat {
    pub fn is_empty(&self) -> (b: bool)
        ensures
            b == self@.inert(),
    {
        is_general(&self.format) && self.rules.len() == 0
    }
}

/// Formatting of a rectangle. The rectangle is stored and not its cells.
#[derive(Clone, Debug, PartialEq)]
pub struct RangeFormat {
    pub range: TableRange,
    /// Wins over the column's format inside the rectangle, where set.
    pub format: Option<NumberFormat>,
    pub rules: Vec<ConditionalRule>,
}

#[verifier::ext_equal]
pub ghost struct RangeFormatView {
    pub range: TableRange,
    pub format: Option<NumberFormat>,
    pub rules: Seq<ConditionalRule>,
}

impl View for RangeFormat {
    type V = RangeFormatView;

    open spec fn view(&self) -> RangeFormatView {
        RangeFormatView { range: self.range, format: self.format, rules: self.rules@ }
    }
}

impl RangeFormatView {
    pub open spec fn fresh(range: TableRange) -> RangeFormatView {
        RangeFormatView { range, format: None, rules: Seq::empty() }
    }

    pub open spec fn inert(self) -> bool {
        self.format is None && self.rules.len() == 0
    }
}

impl RangeFormat {
    pub fn new(range: TableRange) -> (r: RangeFormat)
        ensures
            r@ == RangeFormatView::fresh(range),
    {
        RangeFormat { range, format: None, rules: Vec::new() }
    }

    pub fn with_rule(self, rule: ConditionalRule) -> (r: RangeFormat)
        ensures
            r@ == (RangeFormatView { rules: self@.rules.push(rule), ..self@ }),
    {
        let mut rules = self.rules;
        rules.push(rule);
        RangeFormat { range: self.range, format: self.format, rules }
    }

    pub fn is_empty(&self) -> (b: bool)
        ensures
            b == self@.inert(),
    {
        self.format.is_none() && self.rules.len() == 0
    }
}

/// A look picked by hand for one cell.
#[derive(Clone, Debug, PartialEq)]
pub struct CellOverride {
    pub manual: ManualStyle,
    pub format: Option<NumberFormat>,
}

impl Default for CellOverride {
    fn default() -> (o: CellOverride)
        ensures
            o.inert(),
    {
        CellOverride { manual: ManualStyle::default(), format: None }
    }
}

impl CellOverride {
    pub open spec fn inert(self) -> bool {
        self.manual.blank() && self.format is None
    }

    pub fn is_empty(&self) -> (b: bool)
        ensures
            b == self.inert(),
    {
        self.manual.is_empty() && self.format.is_none()
    }
}

} // verus!
