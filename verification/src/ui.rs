//! Colour settings: RGBA colours, the editable colour table with its
//! defaults, the list of editable entries and channel adjustment.

use vstd::prelude::*;

verus! {

/// A colour as four 0-255 channels.
#[derive(Clone, Copy, Debug, PartialEq, Eq, Structural)]
pub struct ColorRgba {
    pub r: u8,
    pub g: u8,
    pub b: u8,
    pub a: u8,
}

/// The colours of every part of the interface and map.
#[derive(Clone, Copy, Debug, PartialEq, Eq, Structural)]
pub struct AppColors {
    pub background: ColorRgba,
    pub grid: ColorRgba,
    pub hover: ColorRgba,
    pub text_primary: ColorRgba,
    pub text_secondary: ColorRgba,
    pub button_base: ColorRgba,
    pub button_hover: ColorRgba,
    pub button_border: ColorRgba,
    pub button_text: ColorRgba,
    pub panel_bg: ColorRgba,
    pub panel_border: ColorRgba,
    pub tooltip_bg: ColorRgba,
    pub tooltip_border: ColorRgba,
    pub route_line: ColorRgba,
    pub port_in: ColorRgba,
    pub port_out: ColorRgba,
    pub block_vivienda: ColorRgba,
    pub block_fabrica: ColorRgba,
    pub block_mina: ColorRgba,
    pub block_almacen: ColorRgba,
    pub block_logistica: ColorRgba,
    pub block_ruta: ColorRgba,
    pub tile_piedra: ColorRgba,
    pub tile_hierro: ColorRgba,
    pub tile_cobre: ColorRgba,
    pub tile_agua: ColorRgba,
}

/// The colour table the game starts with.
pub open spec fn default_app_colors() -> AppColors {
    AppColors {
        background: ColorRgba { r: 18, g: 22, b: 26, a: 255 },
        grid: ColorRgba { r: 70, g: 78, b: 86, a: 255 },
        hover: ColorRgba { r: 255, g: 210, b: 90, a: 255 },
        text_primary: ColorRgba { r: 220, g: 220, b: 220, a: 255 },
        text_secondary: ColorRgba { r: 190, g: 200, b: 210, a: 255 },
        button_base: ColorRgba { r: 50, g: 62, b: 75, a: 255 },
        button_hover: ColorRgba { r: 70, g: 85, b: 100, a: 255 },
        button_border: ColorRgba { r: 110, g: 130, b: 150, a: 255 },
        button_text: ColorRgba { r: 220, g: 230, b: 240, a: 255 },
        panel_bg: ColorRgba { r: 28, g: 34, b: 40, a: 230 },
        panel_border: ColorRgba { r: 80, g: 90, b: 100, a: 255 },
        tooltip_bg: ColorRgba { r: 30, g: 36, b: 44, a: 240 },
        tooltip_border: ColorRgba { r: 100, g: 120, b: 140, a: 255 },
        route_line: ColorRgba { r: 120, g: 140, b: 160, a: 200 },
        port_in: ColorRgba { r: 80, g: 160, b: 220, a: 255 },
        port_out: ColorRgba { r: 220, g: 170, b: 90, a: 255 },
        block_vivienda: ColorRgba { r: 120, g: 200, b: 120, a: 255 },
        block_fabrica: ColorRgba { r: 220, g: 140, b: 80, a: 255 },
        block_mina: ColorRgba { r: 110, g: 150, b: 200, a: 255 },
        block_almacen: ColorRgba { r: 210, g: 190, b: 90, a: 255 },
        block_logistica: ColorRgba { r: 120, g: 140, b: 160, a: 255 },
        block_ruta: ColorRgba { r: 90, g: 100, b: 115, a: 255 },
        tile_piedra: ColorRgba { r: 110, g: 110, b: 120, a: 255 },
        tile_hierro: ColorRgba { r: 120, g: 95, b: 85, a: 255 },
        tile_cobre: ColorRgba { r: 150, g: 95, b: 70, a: 255 },
        tile_agua: ColorRgba { r: 60, g: 110, b: 160, a: 255 },
    }
}

impl Default for AppColors {
    fn default() -> (c: Self)
        ensures
            c == default_app_colors(),
    {
        AppColors {
            background: ColorRgba { r: 18, g: 22, b: 26, a: 255 },
            grid: ColorRgba { r: 70, g: 78, b: 86, a: 255 },
            hover: ColorRgba { r: 255, g: 210, b: 90, a: 255 },
            text_primary: ColorRgba { r: 220, g: 220, b: 220, a: 255 },
            text_secondary: ColorRgba { r: 190, g: 200, b: 210, a: 255 },
            button_base: ColorRgba { r: 50, g: 62, b: 75, a: 255 },
            button_hover: ColorRgba { r: 70, g: 85, b: 100, a: 255 },
            button_border: ColorRgba { r: 110, g: 130, b: 150, a: 255 },
            button_text: ColorRgba { r: 220, g: 230, b: 240, a: 255 },
            panel_bg: ColorRgba { r: 28, g: 34, b: 40, a: 230 },
            panel_border: ColorRgba { r: 80, g: 90, b: 100, a: 255 },
            tooltip_bg: ColorRgba { r: 30, g: 36, b: 44, a: 240 },
            tooltip_border: ColorRgba { r: 100, g: 120, b: 140, a: 255 },
            route_line: ColorRgba { r: 120, g: 140, b: 160, a: 200 },
            port_in: ColorRgba { r: 80, g: 160, b: 220, a: 255 },
            port_out: ColorRgba { r: 220, g: 170, b: 90, a: 255 },
            block_vivienda: ColorRgba { r: 120, g: 200, b: 120, a: 255 },
            block_fabrica: ColorRgba { r: 220, g: 140, b: 80, a: 255 },
            block_mina: ColorRgba { r: 110, g: 150, b: 200, a: 255 },
            block_almacen: ColorRgba { r: 210, g: 190, b: 90, a: 255 },
            block_logistica: ColorRgba { r: 120, g: 140, b: 160, a: 255 },
            block_ruta: ColorRgba { r: 90, g: 100, b: 115, a: 255 },
            tile_piedra: ColorRgba { r: 110, g: 110, b: 120, a: 255 },
            tile_hierro: ColorRgba { r: 120, g: 95, b: 85, a: 255 },
            tile_cobre: ColorRgba { r: 150, g: 95, b: 70, a: 255 },
            tile_agua: ColorRgba { r: 60, g: 110, b: 160, a: 255 },
        }
    }
}

/// An entry of the colour table that the settings screen can edit.
#[derive(Clone, Copy, Debug, PartialEq, Eq, Structural)]
pub enum ColorTarget {
    Background,
    Grid,
    Hover,
    TextPrimary,
    TextSecondary,
    ButtonBase,
    ButtonHover,
    ButtonBorder,
    ButtonText,
    PanelBg,
    PanelBorder,
    TooltipBg,
    TooltipBorder,
    RouteLine,
    PortIn,
    PortOut,
    BlockVivienda,
    BlockFabrica,
    BlockMina,
    BlockAlmacen,
    BlockLogistica,
    BlockRuta,
    TilePiedra,
    TileHierro,
    TileCobre,
    TileAgua,
}

/// The editable entries in the order the settings screen cycles through.
pub open spec fn spec_color_targets() -> Seq<ColorTarget> {
    seq![
        ColorTarget::Background,
        ColorTarget::Grid,
        ColorTarget::Hover,
        ColorTarget::TextPrimary,
        ColorTarget::TextSecondary,
        ColorTarget::ButtonBase,
        ColorTarget::ButtonHover,
        ColorTarget::ButtonBorder,
        ColorTarget::ButtonText,
        ColorTarget::PanelBg,
        ColorTarget::PanelBorder,
        ColorTarget::TooltipBg,
        ColorTarget::TooltipBorder,
        ColorTarget::RouteLine,
        ColorTarget::PortIn,
        ColorTarget::PortOut,
        ColorTarget::BlockVivienda,
        ColorTarget::BlockFabrica,
        ColorTarget::BlockMina,
        ColorTarget::BlockAlmacen,
        ColorTarget::BlockLogistica,
        ColorTarget::BlockRuta,
        ColorTarget::TilePiedra,
        ColorTarget::TileHierro,
        ColorTarget::TileCobre,
        ColorTarget::TileAgua,
    ]
}

/// The place of an entry in the settings order.
pub open spec fn color_target_index(t: ColorTarget) -> int {
    match t {
        ColorTarget::Background => 0,
        ColorTarget::Grid => 1,
        ColorTarget::Hover => 2,
        ColorTarget::TextPrimary => 3,
        ColorTarget::TextSecondary => 4,
        ColorTarget::ButtonBase => 5,
        ColorTarget::ButtonHover => 6,
        ColorTarget::ButtonBorder => 7,
        ColorTarget::ButtonText => 8,
        ColorTarget::PanelBg => 9,
        ColorTarget::PanelBorder => 10,
        ColorTarget::TooltipBg => 11,
        ColorTarget::TooltipBorder => 12,
        ColorTarget::RouteLine => 13,
        ColorTarget::PortIn => 14,
        ColorTarget::PortOut => 15,
        ColorTarget::BlockVivienda => 16,
        ColorTarget::BlockFabrica => 17,
        ColorTarget::BlockMina => 18,
        ColorTarget::BlockAlmacen => 19,
        ColorTarget::BlockLogistica => 20,
        ColorTarget::BlockRuta => 21,
        ColorTarget::TilePiedra => 22,
        ColorTarget::TileHierro => 23,
        ColorTarget::TileCobre => 24,
        ColorTarget::TileAgua => 25,
    }
}

/// The editable entries in the order the settings screen cycles through.
pub fn color_target_list() -> (list: [ColorTarget; 26])
    ensures
        list@ == spec_color_targets(),
{
    let list = [
        ColorTarget::Background,
        ColorTarget::Grid,
        ColorTarget::Hover,
        ColorTarget::TextPrimary,
        ColorTarget::TextSecondary,
        ColorTarget::ButtonBase,
        ColorTarget::ButtonHover,
        ColorTarget::ButtonBorder,
        ColorTarget::ButtonText,
        ColorTarget::PanelBg,
        ColorTarget::PanelBorder,
        ColorTarget::TooltipBg,
        ColorTarget::TooltipBorder,
        ColorTarget::RouteLine,
        ColorTarget::PortIn,
        ColorTarget::PortOut,
        ColorTarget::BlockVivienda,
        ColorTarget::BlockFabrica,
        ColorTarget::BlockMina,
        ColorTarget::BlockAlmacen,
        ColorTarget::BlockLogistica,
        ColorTarget::BlockRuta,
        ColorTarget::TilePiedra,
        ColorTarget::TileHierro,
        ColorTarget::TileCobre,
        ColorTarget::TileAgua,
    ];
    assert(list@ =~= spec_color_targets());
    list
}

/// The list holds every entry exactly once, each at its index.
pub proof fn lemma_color_targets_complete()
    ensures
        spec_color_targets().len() == 26,
        forall|i: int| 0 <= i < 26 ==> color_target_index(#[trigger] spec_color_targets()[i]) == i,
        forall|t: ColorTarget| #[trigger] spec_color_targets()[color_target_index(t)] == t,
        forall|t: ColorTarget| 0 <= #[trigger] color_target_index(t) < 26,
        spec_color_targets().no_duplicates(),
{
    let s = spec_color_targets();
    assert forall|i: int| 0 <= i < 26 implies color_target_index(#[trigger] s[i]) == i by {
        assert(s[0] == ColorTarget::Background);
        assert(s[1] == ColorTarget::Grid);
        assert(s[2] == ColorTarget::Hover);
        assert(s[3] == ColorTarget::TextPrimary);
        assert(s[4] == ColorTarget::TextSecondary);
        assert(s[5] == ColorTarget::ButtonBase);
        assert(s[6] == ColorTarget::ButtonHover);
        assert(s[7] == ColorTarget::ButtonBorder);
        assert(s[8] == ColorTarget::ButtonText);
        assert(s[9] == ColorTarget::PanelBg);
        assert(s[10] == ColorTarget::PanelBorder);
        assert(s[11] == ColorTarget::TooltipBg);
        assert(s[12] == ColorTarget::TooltipBorder);
        assert(s[13] == ColorTarget::RouteLine);
        assert(s[14] == ColorTarget::PortIn);
        assert(s[15] == ColorTarget::PortOut);
        assert(s[16] == ColorTarget::BlockVivienda);
        assert(s[17] == ColorTarget::BlockFabrica);
        assert(s[18] == ColorTarget::BlockMina);
        assert(s[19] == ColorTarget::BlockAlmacen);
        assert(s[20] == ColorTarget::BlockLogistica);
        assert(s[21] == ColorTarget::BlockRuta);
        assert(s[22] == ColorTarget::TilePiedra);
        assert(s[23] == ColorTarget::TileHierro);
        assert(s[24] == ColorTarget::TileCobre);
        assert(s[25] == ColorTarget::TileAgua);
    }
    assert forall|i: int, j: int| 0 <= i < s.len() && 0 <= j < s.len() && i != j implies s[i] != s[j] by {
        assert(color_target_index(s[i]) == i && color_target_index(s[j]) == j);
    }
}

/// Display name of an entry on the settings screen.
pub open spec fn spec_color_target_name(t: ColorTarget) -> Seq<char> {
    match t {
        ColorTarget::Background => "Fondo"@,
        ColorTarget::Grid => "Grilla"@,
        ColorTarget::Hover => "Hover"@,
        ColorTarget::TextPrimary => "Texto"@,
        ColorTarget::TextSecondary => "Texto secund"@,
        ColorTarget::ButtonBase => "Boton base"@,
        ColorTarget::ButtonHover => "Boton hover"@,
        ColorTarget::ButtonBorder => "Boton borde"@,
        ColorTarget::ButtonText => "Boton texto"@,
        ColorTarget::PanelBg => "Panel fondo"@,
        ColorTarget::PanelBorder => "Panel borde"@,
        ColorTarget::TooltipBg => "Tooltip fondo"@,
        ColorTarget::TooltipBorder => "Tooltip borde"@,
        ColorTarget::RouteLine => "Ruta linea"@,
        ColorTarget::PortIn => "Input"@,
        ColorTarget::PortOut => "Output"@,
        ColorTarget::BlockVivienda => "Vivienda"@,
        ColorTarget::BlockFabrica => "Fabrica"@,
        ColorTarget::BlockMina => "Mina"@,
        ColorTarget::BlockAlmacen => "Almacen"@,
        ColorTarget::BlockLogistica => "Logistica"@,
        ColorTarget::BlockRuta => "Ruta"@,
        ColorTarget::TilePiedra => "Piedra"@,
        ColorTarget::TileHierro => "Hierro"@,
        ColorTarget::TileCobre => "Cobre"@,
        ColorTarget::TileAgua => "Agua"@,
    }
}

/// Display name of an entry on the settings screen.
pub fn color_target_name(target: ColorTarget) -> (name: &'static str)
    ensures
        name@ == spec_color_target_name(target),
{
    match target {
        ColorTarget::Background => "Fondo",
        ColorTarget::Grid => "Grilla",
        ColorTarget::Hover => "Hover",
        ColorTarget::TextPrimary => "Texto",
        ColorTarget::TextSecondary => "Texto secund",
        ColorTarget::ButtonBase => "Boton base",
        ColorTarget::ButtonHover => "Boton hover",
        ColorTarget::ButtonBorder => "Boton borde",
        ColorTarget::ButtonText => "Boton texto",
        ColorTarget::PanelBg => "Panel fondo",
        ColorTarget::PanelBorder => "Panel borde",
        ColorTarget::TooltipBg => "Tooltip fondo",
        ColorTarget::TooltipBorder => "Tooltip borde",
        ColorTarget::RouteLine => "Ruta linea",
        ColorTarget::PortIn => "Input",
        ColorTarget::PortOut => "Output",
        ColorTarget::BlockVivienda => "Vivienda",
        ColorTarget::BlockFabrica => "Fabrica",
        ColorTarget::BlockMina => "Mina",
        ColorTarget::BlockAlmacen => "Almacen",
        ColorTarget::BlockLogistica => "Logistica",
        ColorTarget::BlockRuta => "Ruta",
        ColorTarget::TilePiedra => "Piedra",
        ColorTarget::TileHierro => "Hierro",
        ColorTarget::TileCobre => "Cobre",
        ColorTarget::TileAgua => "Agua",
    }
}

/// The colour an entry stands for.
pub open spec fn color_of(c: AppColors, t: ColorTarget) -> ColorRgba {
    match t {
        ColorTarget::Background => c.background,
        ColorTarget::Grid => c.grid,
        ColorTarget::Hover => c.hover,
        ColorTarget::TextPrimary => c.text_primary,
        ColorTarget::TextSecondary => c.text_secondary,
        ColorTarget::ButtonBase => c.button_base,
        ColorTarget::ButtonHover => c.button_hover,
        ColorTarget::ButtonBorder => c.button_border,
        ColorTarget::ButtonText => c.button_text,
        ColorTarget::PanelBg => c.panel_bg,
        ColorTarget::PanelBorder => c.panel_border,
        ColorTarget::TooltipBg => c.tooltip_bg,
        ColorTarget::TooltipBorder => c.tooltip_border,
        ColorTarget::RouteLine => c.route_line,
        ColorTarget::PortIn => c.port_in,
        ColorTarget::PortOut => c.port_out,
        ColorTarget::BlockVivienda => c.block_vivienda,
        ColorTarget::BlockFabrica => c.block_fabrica,
        ColorTarget::BlockMina => c.block_mina,
        ColorTarget::BlockAlmacen => c.block_almacen,
        ColorTarget::BlockLogistica => c.block_logistica,
        ColorTarget::BlockRuta => c.block_ruta,
        ColorTarget::TilePiedra => c.tile_piedra,
        ColorTarget::TileHierro => c.tile_hierro,
        ColorTarget::TileCobre => c.tile_cobre,
        ColorTarget::TileAgua => c.tile_agua,
    }
}

/// The table with one entry set to `x`.
pub open spec fn with_color(c: AppColors, t: ColorTarget, x: ColorRgba) -> AppColors {
    match t {
        ColorTarget::Background => AppColors { background: x, ..c },
        ColorTarget::Grid => AppColors { grid: x, ..c },
        ColorTarget::Hover => AppColors { hover: x, ..c },
        ColorTarget::TextPrimary => AppColors { text_primary: x, ..c },
        ColorTarget::TextSecondary => AppColors { text_secondary: x, ..c },
        ColorTarget::ButtonBase => AppColors { button_base: x, ..c },
        ColorTarget::ButtonHover => AppColors { button_hover: x, ..c },
        ColorTarget::ButtonBorder => AppColors { button_border: x, ..c },
        ColorTarget::ButtonText => AppColors { button_text: x, ..c },
        ColorTarget::PanelBg => AppColors { panel_bg: x, ..c },
        ColorTarget::PanelBorder => AppColors { panel_border: x, ..c },
        ColorTarget::TooltipBg => AppColors { tooltip_bg: x, ..c },
        ColorTarget::TooltipBorder => AppColors { tooltip_border: x, ..c },
        ColorTarget::RouteLine => AppColors { route_line: x, ..c },
        ColorTarget::PortIn => AppColors { port_in: x, ..c },
        ColorTarget::PortOut => AppColors { port_out: x, ..c },
        ColorTarget::BlockVivienda => AppColors { block_vivienda: x, ..c },
        ColorTarget::BlockFabrica => AppColors { block_fabrica: x, ..c },
        ColorTarget::BlockMina => AppColors { block_mina: x, ..c },
        ColorTarget::BlockAlmacen => AppColors { block_almacen: x, ..c },
        ColorTarget::BlockLogistica => AppColors { block_logistica: x, ..c },
        ColorTarget::BlockRuta => AppColors { block_ruta: x, ..c },
        ColorTarget::TilePiedra => AppColors { tile_piedra: x, ..c },
        ColorTarget::TileHierro => AppColors { tile_hierro: x, ..c },
        ColorTarget::TileCobre => AppColors { tile_cobre: x, ..c },
        ColorTarget::TileAgua => AppColors { tile_agua: x, ..c },
    }
}

/// The colour of one entry of the table, to be edited in place.
pub fn color_target_mut(target: ColorTarget, colors: &mut AppColors) -> (r: &mut ColorRgba)
    ensures
        *r == color_of(*old(colors), target),
        *final(colors) == with_color(*old(colors), target, *final(r)),
{
    match target {
        ColorTarget::Background => &mut colors.background,
        ColorTarget::Grid => &mut colors.grid,
        ColorTarget::Hover => &mut colors.hover,
        ColorTarget::TextPrimary => &mut colors.text_primary,
        ColorTarget::TextSecondary => &mut colors.text_secondary,
        ColorTarget::ButtonBase => &mut colors.button_base,
        ColorTarget::ButtonHover => &mut colors.button_hover,
        ColorTarget::ButtonBorder => &mut colors.button_border,
        ColorTarget::ButtonText => &mut colors.button_text,
        ColorTarget::PanelBg => &mut colors.panel_bg,
        ColorTarget::PanelBorder => &mut colors.panel_border,
        ColorTarget::TooltipBg => &mut colors.tooltip_bg,
        ColorTarget::TooltipBorder => &mut colors.tooltip_border,
        ColorTarget::RouteLine => &mut colors.route_line,
        ColorTarget::PortIn => &mut colors.port_in,
        ColorTarget::PortOut => &mut colors.port_out,
        ColorTarget::BlockVivienda => &mut colors.block_vivienda,
        ColorTarget::BlockFabrica => &mut colors.block_fabrica,
        ColorTarget::BlockMina => &mut colors.block_mina,
        ColorTarget::BlockAlmacen => &mut colors.block_almacen,
        ColorTarget::BlockLogistica => &mut colors.block_logistica,
        ColorTarget::BlockRuta => &mut colors.block_ruta,
        ColorTarget::TilePiedra => &mut colors.tile_piedra,
        ColorTarget::TileHierro => &mut colors.tile_hierro,
        ColorTarget::TileCobre => &mut colors.tile_cobre,
        ColorTarget::TileAgua => &mut colors.tile_agua,
    }
}

/// A channel value moved by `delta` and held within 0 to 255.
pub open spec fn clamp_channel(x: int) -> u8 {
    if x < 0 {
        0
    } else if x > 255 {
        255
    } else {
        x as u8
    }
}

/// Channel `channel` of a colour: 0 red, 1 green, 2 blue, any other alpha.
pub open spec fn channel_value(c: ColorRgba, channel: int) -> u8 {
    if channel == 0 {
        c.r
    } else if channel == 1 {
        c.g
    } else if channel == 2 {
        c.b
    } else {
        c.a
    }
}

/// The colour with one channel (0 red, 1 green, 2 blue, any other alpha)
/// set to `x`.
pub open spec fn with_channel(c: ColorRgba, channel: int, x: u8) -> ColorRgba {
    if channel == 0 {
        ColorRgba { r: x, ..c }
    } else if channel == 1 {
        ColorRgba { g: x, ..c }
    } else if channel == 2 {
        ColorRgba { b: x, ..c }
    } else {
        ColorRgba { a: x, ..c }
    }
}

fn shift_channel(value: u8, delta: i32) -> (next: u8)
    requires
        value + delta <= i32::MAX,
    ensures
        next == clamp_channel(value + delta),
{
    let next = value as i32 + delta;
    if next < 0 {
        0
    } else if next > 255 {
        255
    } else {
        next as u8
    }
}

/// Moves one channel of a colour (0 red, 1 green, 2 blue, any other alpha)
/// by `delta`, held within 0 to 255; the other channels stay.
pub fn adjust_color_channel(color: &mut ColorRgba, channel: usize, delta: i32)
    requires
        channel_value(*old(color), channel as int) + delta <= i32::MAX,
    ensures
        *final(color) == with_channel(*old(color), channel as int,
            clamp_channel(channel_value(*old(color), channel as int) + delta)),
{
    match channel {
        0 => color.r = shift_channel(color.r, delta),
        1 => color.g = shift_channel(color.g, delta),
        2 => color.b = shift_channel(color.b, delta),
        _ => color.a = shift_channel(color.a, delta),
    }
}

} // verus!
