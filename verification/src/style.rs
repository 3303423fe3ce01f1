//! Style properties and how they are merged into a computed style.

use vstd::prelude::*;

verus! {

/// The main axis along which a box lays out its children.
#[derive(Clone, Copy, PartialEq, Eq, Structural, Debug)]
pub enum FlexDirection {
    Row,
    Column,
    RowReverse,
    ColumnReverse,
}

/// A colour: red, green, blue and alpha, eight bits each.
#[derive(Clone, Copy, PartialEq, Eq, Structural, Debug)]
pub struct Color(pub u32);

/// A set of style properties. A property that is `None` is not set: the
/// value below it in the order of precedence shows through.
#[derive(Clone, Copy, PartialEq, Eq, Structural, Debug)]
pub struct Style {
    pub flex_direction: Option<FlexDirection>,
    pub width: Option<u16>,
    pub height: Option<u16>,
    pub background: Option<Color>,
    pub color: Option<Color>,
}

/// The properties of a style that the layout engine reads, with their
/// defaults filled in.
#[derive(Clone, Copy, PartialEq, Eq, Structural, Debug)]
pub struct BoxStyle {
    pub direction: FlexDirection,
    pub width: Option<u16>,
    pub height: Option<u16>,
}

/// The explicit style of one node: its base properties and the properties
/// that override them while the node is in a pseudo-state.
#[derive(Clone, Copy, PartialEq, Eq, Structural, Debug)]
pub struct StyleSheet {
    pub base: Style,
    pub disabled: Style,
    pub focus_visible: Style,
    pub hover: Style,
    pub active: Style,
}

/// The pseudo-states a node is in.
#[derive(Clone, Copy, PartialEq, Eq, Structural, Debug)]
pub struct Interaction {
    pub disabled: bool,
    pub focus_visible: bool,
    pub hovered: bool,
    pub active: bool,
}

/// `over` where it is set, else `under`.
pub open spec fn pick<T>(under: Option<T>, over: Option<T>) -> Option<T> {
    if over is Some {
        over
    } else {
        under
    }
}

fn pick_direction(under: Option<FlexDirection>, over: Option<FlexDirection>) -> (r: Option<
    FlexDirection,
>)
    ensures
        r == pick(under, over),
{
    match over {
        Some(_) => over,
        None => under,
    }
}

fn pick_length(under: Option<u16>, over: Option<u16>) -> (r: Option<u16>)
    ensures
        r == pick(under, over),
{
    match over {
        Some(_) => over,
        None => under,
    }
}

fn pick_color(under: Option<Color>, over: Option<Color>) -> (r: Option<Color>)
    ensures
        r == pick(under, over),
{
    match over {
        Some(_) => over,
        None => under,
    }
}

impl BoxStyle {
    pub open spec fn spec_initial() -> BoxStyle {
        BoxStyle { direction: FlexDirection::Row, width: None, height: None }
    }

    /// The box style of a node that sets nothing: a row of automatic size.
    #[verifier::when_used_as_spec(spec_initial)]
    pub fn initial() -> (r: BoxStyle)
        ensures
            r == BoxStyle::spec_initial(),
    {
        BoxStyle { direction: FlexDirection::Row, width: None, height: None }
    }
}

impl Style {
    pub open spec fn spec_new() -> Style {
        Style {
            flex_direction: None,
            width: None,
            height: None,
            background: None,
            color: None,
        }
    }

    /// `self` with every property that `over` sets taken from `over`.
    pub open spec fn spec_apply(self, over: Style) -> Style {
        Style {
            flex_direction: pick(self.flex_direction, over.flex_direction),
            width: pick(self.width, over.width),
            height: pick(self.height, over.height),
            background: pick(self.background, over.background),
            color: pick(self.color, over.color),
        }
    }

    /// `self.spec_apply(over)` if `on`, else `self`.
    pub open spec fn apply_if(self, on: bool, over: Style) -> Style {
        if on {
            self.spec_apply(over)
        } else {
            self
        }
    }

    /// The properties that children inherit: the text colour.
    pub open spec fn spec_inheritable(self) -> Style {
        Style {
            flex_direction: None,
            width: None,
            height: None,
            background: None,
            color: self.color,
        }
    }

    pub open spec fn spec_box_style(self) -> BoxStyle {
        BoxStyle {
            direction: match self.flex_direction {
                Some(d) => d,
                None => FlexDirection::Row,
            },
            width: self.width,
            height: self.height,
        }
    }

    /// The style that sets nothing.
    #[verifier::when_used_as_spec(spec_new)]
    pub fn new() -> (r: Style)
        ensures
            r == Style::spec_new(),
    {
        Style {
            flex_direction: None,
            width: None,
            height: None,
            background: None,
            color: None,
        }
    }

    #[verifier::when_used_as_spec(spec_apply)]
    pub fn apply(self, over: Style) -> (r: Style)
        ensures
            r == self.spec_apply(over),
    {
        Style {
            flex_direction: pick_direction(self.flex_direction, over.flex_direction),
            width: pick_length(self.width, over.width),
            height: pick_length(self.height, over.height),
            background: pick_color(self.background, over.background),
            color: pick_color(self.color, over.color),
        }
    }

    #[verifier::when_used_as_spec(spec_inheritable)]
    pub fn inheritable(self) -> (r: Style)
        ensures
            r == self.spec_inheritable(),
    {
        Style {
            flex_direction: None,
            width: None,
            height: None,
            background: None,
            color: self.color,
        }
    }

    /// What the layout engine is told of this style.
    #[verifier::when_used_as_spec(spec_box_style)]
    pub fn box_style(self) -> (r: BoxStyle)
        ensures
            r == self.spec_box_style(),
    {
        BoxStyle {
            direction: match self.flex_direction {
                Some(d) => d,
                None => FlexDirection::Row,
            },
            width: self.width,
            height: self.height,
        }
    }

    pub fn flex_direction(self, direction: FlexDirection) -> (r: Style)
        ensures
            r == (Style { flex_direction: Some(direction), ..self }),
    {
        Style { flex_direction: Some(direction), ..self }
    }

    pub fn width(self, width: u16) -> (r: Style)
        ensures
            r == (Style { width: Some(width), ..self }),
    {
        Style { width: Some(width), ..self }
    }

    pub fn height(self, height: u16) -> (r: Style)
        ensures
            r == (Style { height: Some(height), ..self }),
    {
        Style { height: Some(height), ..self }
    }

    pub fn background(self, color: Color) -> (r: Style)
        ensures
            r == (Style { background: Some(color), ..self }),
    {
        Style { background: Some(color), ..self }
    }

    pub fn color(self, color: Color) -> (r: Style)
        ensures
            r == (Style { color: Some(color), ..self }),
    {
        Style { color: Some(color), ..self }
    }
}

impl StyleSheet {
    pub open spec fn spec_new() -> StyleSheet {
        StyleSheet {
            base: Style::spec_new(),
            disabled: Style::spec_new(),
            focus_visible: Style::spec_new(),
            hover: Style::spec_new(),
            active: Style::spec_new(),
        }
    }

    /// The sheet that sets nothing in any state.
    #[verifier::when_used_as_spec(spec_new)]
    pub fn new() -> (r: StyleSheet)
        ensures
            r == StyleSheet::spec_new(),
    {
        StyleSheet {
            base: Style::new(),
            disabled: Style::new(),
            focus_visible: Style::new(),
            hover: Style::new(),
            active: Style::new(),
        }
    }

    pub fn base(self, style: Style) -> (r: StyleSheet)
        ensures
            r == (StyleSheet { base: style, ..self }),
    {
        StyleSheet { base: style, ..self }
    }

    pub fn disabled(self, style: Style) -> (r: StyleSheet)
        ensures
            r == (StyleSheet { disabled: style, ..self }),
    {
        StyleSheet { disabled: style, ..self }
    }

    pub fn focus_visible(self, style: Style) -> (r: StyleSheet)
        ensures
            r == (StyleSheet { focus_visible: style, ..self }),
    {
        StyleSheet { focus_visible: style, ..self }
    }

    pub fn hover(self, style: Style) -> (r: StyleSheet)
        ensures
            r == (StyleSheet { hover: style, ..self }),
    {
        StyleSheet { hover: style, ..self }
    }

    pub fn active(self, style: Style) -> (r: StyleSheet)
        ensures
            r == (StyleSheet { active: style, ..self }),
    {
        StyleSheet { active: style, ..self }
    }
}

impl Interaction {
    pub open spec fn spec_idle() -> Interaction {
        Interaction { disabled: false, focus_visible: false, hovered: false, active: false }
    }

    /// In no pseudo-state.
    #[verifier::when_used_as_spec(spec_idle)]
    pub fn idle() -> (r: Interaction)
        ensures
            r == Interaction::spec_idle(),
    {
        Interaction { disabled: false, focus_visible: false, hovered: false, active: false }
    }
}

/// The computed style of a node. From the lowest precedence to the highest:
/// what the parent hands down, the style the kind of node brings with it,
/// the node's own base style, and then the overrides of each pseudo-state
/// the node is in: disabled, focus-visible, hover, active.
pub open spec fn resolved(
    inherited: Style,
    intrinsic: Option<Style>,
    sheet: StyleSheet,
    state: Interaction,
) -> Style {
    inherited.spec_inheritable().apply_if(intrinsic is Some, intrinsic.unwrap()).spec_apply(
        sheet.base,
    ).apply_if(state.disabled, sheet.disabled).apply_if(
        state.focus_visible,
        sheet.focus_visible,
    ).apply_if(state.hovered, sheet.hover).apply_if(state.active, sheet.active)
}

/// Computes [`resolved`].
pub fn resolve(inherited: Style, intrinsic: Option<Style>, sheet: StyleSheet, state: Interaction) -> (r:
    Style)
    ensures
        r == resolved(inherited, intrinsic, sheet, state),
{
    let mut style: Style = inherited.inheritable();
    match intrinsic {
        Some(own) => {
            style = style.apply(own);
        },
        None => {},
    }
    style = style.apply(sheet.base);
    if state.disabled {
        style = style.apply(sheet.disabled);
    }
    if state.focus_visible {
        style = style.apply(sheet.focus_visible);
    }
    if state.hovered {
        style = style.apply(sheet.hover);
    }
    if state.active {
        style = style.apply(sheet.active);
    }
    style
}

/// A background that the active state sets wins over every other; one that
/// the hover state sets wins over all but the active state's; and so on
/// down to what the kind of node brings with it.
pub proof fn lemma_background_precedence(
    inherited: Style,
    intrinsic: Option<Style>,
    sheet: StyleSheet,
    state: Interaction,
)
    ensures
        ({
            let r = resolved(inherited, intrinsic, sheet, state).background;
            if state.active && sheet.active.background is Some {
                r == sheet.active.background
            } else if state.hovered && sheet.hover.background is Some {
                r == sheet.hover.background
            } else if state.focus_visible && sheet.focus_visible.background is Some {
                r == sheet.focus_visible.background
            } else if state.disabled && sheet.disabled.background is Some {
                r == sheet.disabled.background
            } else if sheet.base.background is Some {
                r == sheet.base.background
            } else if intrinsic is Some {
                r == intrinsic.unwrap().background
            } else {
                r is None
            }
        }),
{
}

impl Style {
    /// The style sets no property that the layout engine reads.
    pub open spec fn paint_only(self) -> bool {
        self.flex_direction is None && self.width is None && self.height is None
    }
}

impl StyleSheet {
    /// No pseudo-state of the sheet sets a property that the layout engine
    /// reads.
    pub open spec fn states_paint_only(self) -> bool {
        &&& self.disabled.paint_only()
        &&& self.focus_visible.paint_only()
        &&& self.hover.paint_only()
        &&& self.active.paint_only()
    }
}

/// An override that sets no box property leaves the box style as it was.
pub proof fn lemma_paint_only_override_keeps_box(under: Style, over: Style)
    requires
        over.paint_only(),
    ensures
        under.spec_apply(over).spec_box_style() == under.spec_box_style(),
{
}

/// Where the pseudo-states of a sheet set colours only, the box style of
/// the computed style is the same in every combination of pseudo-states.
pub proof fn lemma_states_keep_box(
    inherited: Style,
    intrinsic: Option<Style>,
    sheet: StyleSheet,
    a: Interaction,
    b: Interaction,
)
    requires
        sheet.states_paint_only(),
    ensures
        resolved(inherited, intrinsic, sheet, a).spec_box_style() == resolved(
            inherited,
            intrinsic,
            sheet,
            b,
        ).spec_box_style(),
{
    let base = inherited.spec_inheritable().apply_if(intrinsic is Some, intrinsic.unwrap()).spec_apply(
        sheet.base,
    );
    assert(resolved(inherited, intrinsic, sheet, a).spec_box_style() == base.spec_box_style());
    assert(resolved(inherited, intrinsic, sheet, b).spec_box_style() == base.spec_box_style());
}

} // verus!
