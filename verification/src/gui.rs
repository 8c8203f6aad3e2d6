use vstd::prelude::*;

verus! {

/// How the renderer should draw the array. The drawing itself is done by the
/// presentation layer; the core only stores and hands back the selection.
#[derive(Clone, Copy, Debug, PartialEq, Eq, Structural)]
pub enum DisplayMode {
    Default,
    Colors,
    Circle,
}

impl DisplayMode {
    /// Every selectable display mode, in the order the UI offers them.
    pub fn values() -> (r: Vec<DisplayMode>)
        ensures
            r@ == seq![DisplayMode::Default, DisplayMode::Colors, DisplayMode::Circle],
    {
        let mut v: Vec<DisplayMode> = Vec::new();
        v.push(DisplayMode::Default);
        v.push(DisplayMode::Colors);
        v.push(DisplayMode::Circle);
        assert(v@ =~= seq![DisplayMode::Default, DisplayMode::Colors, DisplayMode::Circle]);
        v
    }
}

impl Default for DisplayMode {
    fn default() -> (r: Self)
        ensures
            r == DisplayMode::Default,
    {
        DisplayMode::Default
    }
}

} // verus!
