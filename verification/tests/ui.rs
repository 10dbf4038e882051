use gridgame::settings::{cycle_color_target, selected_color_target, step_cluster_range, step_tile_clusters};
use gridgame::ui::{adjust_color_channel, color_target_list, color_target_mut, color_target_name, AppColors, ColorRgba, ColorTarget};

#[test]
fn default_colors_match_the_shipped_palette() {
    let c = AppColors::default();
    assert_eq!(c.background, ColorRgba { r: 18, g: 22, b: 26, a: 255 });
    assert_eq!(c.panel_bg, ColorRgba { r: 28, g: 34, b: 40, a: 230 });
    assert_eq!(c.route_line, ColorRgba { r: 120, g: 140, b: 160, a: 200 });
    assert_eq!(c.tile_agua, ColorRgba { r: 60, g: 110, b: 160, a: 255 });
}

#[test]
fn color_targets_are_listed_once_each_in_order() {
    let list = color_target_list();
    assert_eq!(list.len(), 26);
    assert_eq!(list[0], ColorTarget::Background);
    assert_eq!(list[13], ColorTarget::RouteLine);
    assert_eq!(list[25], ColorTarget::TileAgua);
    for i in 0..26 {
        for j in 0..26 {
            if i != j {
                assert_ne!(list[i], list[j]);
            }
        }
    }
}

#[test]
fn color_target_names() {
    assert_eq!(color_target_name(ColorTarget::Background), "Fondo");
    assert_eq!(color_target_name(ColorTarget::TextSecondary), "Texto secund");
    assert_eq!(color_target_name(ColorTarget::PortIn), "Input");
    assert_eq!(color_target_name(ColorTarget::TileAgua), "Agua");
}

#[test]
fn editing_a_color_target_changes_only_that_entry() {
    let mut c = AppColors::default();
    {
        let hover = color_target_mut(ColorTarget::Hover, &mut c);
        assert_eq!(*hover, ColorRgba { r: 255, g: 210, b: 90, a: 255 });
        hover.r = 1;
    }
    let d = AppColors::default();
    assert_eq!(c.hover, ColorRgba { r: 1, g: 210, b: 90, a: 255 });
    assert_eq!(c.grid, d.grid);
    assert_eq!(c.text_primary, d.text_primary);
}

#[test]
fn adjusting_a_channel_clamps_to_a_byte() {
    let mut c = ColorRgba { r: 250, g: 5, b: 100, a: 200 };
    adjust_color_channel(&mut c, 0, 8);
    assert_eq!(c, ColorRgba { r: 255, g: 5, b: 100, a: 200 });
    adjust_color_channel(&mut c, 1, -8);
    assert_eq!(c, ColorRgba { r: 255, g: 0, b: 100, a: 200 });
    adjust_color_channel(&mut c, 2, 8);
    assert_eq!(c, ColorRgba { r: 255, g: 0, b: 108, a: 200 });
    adjust_color_channel(&mut c, 7, -8);
    assert_eq!(c, ColorRgba { r: 255, g: 0, b: 108, a: 192 });
}

#[test]
fn tile_cluster_stepper_stays_between_five_and_three_hundred() {
    assert_eq!(step_tile_clusters(80, true, false), 75);
    assert_eq!(step_tile_clusters(7, true, false), 5);
    assert_eq!(step_tile_clusters(3, true, false), 5);
    assert_eq!(step_tile_clusters(80, false, true), 85);
    assert_eq!(step_tile_clusters(298, false, true), 300);
    assert_eq!(step_tile_clusters(80, true, true), 80);
    assert_eq!(step_tile_clusters(80, false, false), 80);
}

#[test]
fn cluster_range_keeps_min_at_most_max() {
    assert_eq!(step_cluster_range(8, 20, false, true, false, false), (9, 20));
    assert_eq!(step_cluster_range(20, 20, false, true, false, false), (21, 21));
    assert_eq!(step_cluster_range(8, 8, false, false, true, false), (7, 7));
    assert_eq!(step_cluster_range(1, 1, true, false, true, false), (1, 1));
    assert_eq!(step_cluster_range(5, 9, true, false, false, true), (4, 10));
}

#[test]
fn color_target_index_wraps_both_ways() {
    assert_eq!(cycle_color_target(0, true, false), 25);
    assert_eq!(cycle_color_target(25, false, true), 0);
    assert_eq!(cycle_color_target(10, false, true), 11);
    assert_eq!(cycle_color_target(10, true, true), 10);
    assert_eq!(selected_color_target(0), ColorTarget::Background);
    assert_eq!(selected_color_target(27), ColorTarget::Grid);
}
