//! Print profiles.

use rustslicer::config::{
    default_bottom_layers, default_external_perimeter_speed, default_fan_speed,
    default_filament_diameter, default_filament_type, default_first_layer_height,
    default_first_layer_speed, default_flow_rate, default_gcode_flavor, default_infill_density,
    default_infill_speed, default_line_width, default_perimeter_speed, default_perimeters,
    default_profile_name, default_solid_infill_speed, default_support_density,
    default_top_layers, default_travel_speed, default_version, ratio_percent, GCodeSettings, InfillPattern,
    InfillSettings, InputSettings, Metadata, OutputSettings, PrintProfile, PrintSettings,
    QualitySettings,
};
use rustslicer::error::SlicerError;

fn legacy() -> PrintSettings {
    PrintSettings {
        layer_height: 100_000,
        first_layer_height: 250_000,
        line_width: 400_000,
        perimeters: 2,
        external_perimeter_speed: 30_000_000,
        perimeter_speed: 50_000_000,
        top_solid_layers: 3,
        bottom_solid_layers: 3,
        infill_density: 350_000,
        infill_pattern: InfillPattern::Honeycomb,
        infill_speed: 70_000_000,
        solid_infill_speed: 50_000_000,
        support_material: false,
    }
}

fn fault(profile: &PrintProfile) -> String {
    match profile.validate() {
        Err(SlicerError::ConfigError(message)) => message,
        other => panic!("expected a configuration error, got {:?}", other),
    }
}

#[test]
fn defaults_of_single_settings() {
    assert_eq!(default_profile_name(), "Default Profile");
    assert_eq!(default_version(), "1.0");
    assert_eq!(default_first_layer_height(), 300_000);
    assert_eq!(default_line_width(), 400_000);
    assert_eq!(default_perimeters(), 3);
    assert_eq!(default_top_layers(), 4);
    assert_eq!(default_bottom_layers(), 3);
    assert_eq!(default_external_perimeter_speed(), 40_000_000);
    assert_eq!(default_perimeter_speed(), 60_000_000);
    assert_eq!(default_infill_speed(), 80_000_000);
    assert_eq!(default_solid_infill_speed(), 60_000_000);
    assert_eq!(default_travel_speed(), 150_000_000);
    assert_eq!(default_first_layer_speed(), 20_000_000);
    assert_eq!(default_infill_density(), 200_000);
    assert_eq!(default_support_density(), 150_000);
    assert_eq!(default_filament_type(), "PLA");
    assert_eq!(default_flow_rate(), 1_000_000);
    assert_eq!(default_fan_speed(), 100);
    assert_eq!(default_filament_diameter(), 1_750_000);
    assert_eq!(default_gcode_flavor(), "marlin");
}

#[test]
fn defaults_of_sections() {
    let metadata = Metadata::default();
    assert_eq!(metadata.profile_name, "");
    assert_eq!(metadata.version, "");
    assert_eq!(metadata.author, "");

    let input = InputSettings::default();
    assert_eq!(input.stl_path, "model.stl");
    assert_eq!((input.x_rotation, input.y_rotation, input.z_rotation), (0, 0, 0));
    assert_eq!(input.scale, 1_000_000);

    let output = OutputSettings::default();
    assert_eq!(output.gcode_path, "output.gcode");
    assert!(!output.thumbnail);
    assert!(output.comments);

    assert_eq!(InfillPattern::default(), InfillPattern::Gyroid);

    let gcode = GCodeSettings::default();
    assert_eq!(gcode.gcode_flavor, "");
    assert!(!gcode.use_relative_e);
    assert_eq!(gcode.start_gcode, "");
    assert_eq!(gcode.end_gcode, "");
}

#[test]
fn default_pla_profile() {
    let p = PrintProfile::default_pla();
    assert_eq!(p.metadata.profile_name, "Default PLA");
    assert_eq!(p.metadata.version, "1.0");
    assert_eq!(p.metadata.author, "RustSlicer");
    assert!(p.input.is_none() && p.output.is_none());
    assert_eq!(p.machine.printer_type, "cartesian");
    assert_eq!(p.machine.build_volume, [220_000_000, 220_000_000, 250_000_000]);
    assert_eq!(p.machine.nozzle_diameter, 400_000);
    assert_eq!(p.machine.filament_diameter, 1_750_000);
    assert_eq!(p.machine.max_feedrate, [300_000_000, 300_000_000, 12_000_000, 80_000_000]);
    assert_eq!(
        p.machine.max_acceleration,
        [3_000_000_000, 3_000_000_000, 100_000_000, 5_000_000_000]
    );
    let q = p.quality.unwrap();
    assert_eq!((q.layer_height, q.first_layer_height, q.line_width), (200_000, 300_000, 400_000));
    assert_eq!((q.perimeters, q.top_solid_layers, q.bottom_solid_layers), (3, 4, 3));
    let s = p.speed.unwrap();
    assert_eq!(s.external_perimeter_speed, 40_000_000);
    assert_eq!(s.perimeter_speed, 60_000_000);
    assert_eq!(s.infill_speed, 80_000_000);
    assert_eq!(s.solid_infill_speed, 60_000_000);
    assert_eq!(s.travel_speed, 150_000_000);
    assert_eq!(s.first_layer_speed, 20_000_000);
    let i = p.infill.unwrap();
    assert_eq!(i.infill_density, 200_000);
    assert_eq!(i.infill_pattern, InfillPattern::Gyroid);
    assert!(!i.support_material);
    assert_eq!(i.support_density, 150_000);
    let f = p.filament.as_ref().unwrap();
    assert_eq!(f.filament_type, "PLA");
    assert_eq!((f.temperature, f.bed_temperature), (210, 60));
    assert_eq!(f.first_layer_temperature, Some(215));
    assert_eq!(f.first_layer_bed_temperature, Some(65));
    assert_eq!(f.filament_diameter, 1_750_000);
    assert_eq!(f.flow_rate, 1_000_000);
    assert_eq!(f.fan_speed, 100);
    assert_eq!(f.cooling_min_layer_time, 10_000_000);
    assert!(p.print_settings.is_none() && p.material.is_none() && p.advanced.is_none());
    assert_eq!(p.gcode.gcode_flavor, "marlin");
    assert!(!p.gcode.use_relative_e);
    assert_eq!(p.gcode.start_gcode, "G28 ; Home\nG1 Z15.0 F6000\n");
    assert_eq!(p.gcode.end_gcode, "M104 S0\nM140 S0\nM84\n");

    assert!(p.validate().is_ok());
    assert_eq!(p.get_layer_height(), 200_000);
    assert_eq!(p.get_first_layer_height(), 300_000);
    assert_eq!(p.get_infill_density(), 200_000);
}

#[test]
fn current_layout_is_read_before_the_older_one() {
    let mut p = PrintProfile::default_pla();
    p.print_settings = Some(legacy());
    assert_eq!(p.get_layer_height(), 200_000);
    assert_eq!(p.get_first_layer_height(), 300_000);
    assert_eq!(p.get_infill_density(), 200_000);

    p.quality = None;
    assert_eq!(p.get_layer_height(), 100_000);
    assert_eq!(p.get_first_layer_height(), 250_000);
    assert_eq!(p.get_infill_density(), 200_000);

    p.infill = None;
    assert_eq!(p.get_infill_density(), 350_000);

    p.print_settings = None;
    assert_eq!(p.get_layer_height(), 200_000);
    assert_eq!(p.get_first_layer_height(), 300_000);
    assert_eq!(p.get_infill_density(), 200_000);
}

#[test]
fn layer_height_must_be_positive() {
    let mut p = PrintProfile::default_pla();
    p.set_layer_height(0);
    assert_eq!(fault(&p), "Layer height must be positive");
    p.set_layer_height(-1);
    assert_eq!(fault(&p), "Layer height must be positive");
    p.set_layer_height(1);
    assert!(p.validate().is_ok());

    let mut old = PrintProfile::default_pla();
    old.quality = None;
    old.print_settings = Some(PrintSettings { layer_height: 0, ..legacy() });
    assert_eq!(fault(&old), "Layer height must be positive");
}

#[test]
fn infill_density_must_be_a_part_of_the_whole() {
    let mut p = PrintProfile::default_pla();
    p.set_infill_density(-1);
    assert_eq!(fault(&p), "Infill density must be 0.0-1.0");
    p.set_infill_density(1_000_001);
    assert_eq!(fault(&p), "Infill density must be 0.0-1.0");
    p.set_infill_density(0);
    assert!(p.validate().is_ok());
    p.set_infill_density(1_000_000);
    assert!(p.validate().is_ok());

    let mut old = PrintProfile::default_pla();
    old.print_settings = Some(PrintSettings { infill_density: 2_000_000, ..legacy() });
    assert_eq!(fault(&old), "Infill density must be 0.0-1.0");
}

#[test]
fn first_fault_is_the_one_reported() {
    let mut p = PrintProfile::default_pla();
    p.quality = Some(QualitySettings { layer_height: 0, ..p.quality.unwrap() });
    p.infill = Some(InfillSettings { infill_density: -5, ..p.infill.unwrap() });
    assert_eq!(fault(&p), "Layer height must be positive");

    p.quality = None;
    p.print_settings = Some(PrintSettings { layer_height: 0, ..legacy() });
    assert_eq!(fault(&p), "Infill density must be 0.0-1.0");

    p.infill = None;
    p.print_settings = Some(PrintSettings { layer_height: -3, infill_density: 9_000_000, ..legacy() });
    assert_eq!(fault(&p), "Layer height must be positive");
}

#[test]
fn new_values_go_to_the_section_that_is_read() {
    let mut p = PrintProfile::default_pla();
    p.print_settings = Some(legacy());
    p.set_layer_height(150_000);
    p.set_infill_density(500_000);
    assert_eq!(p.quality.unwrap().layer_height, 150_000);
    assert_eq!(p.quality.unwrap().first_layer_height, 300_000);
    assert_eq!(p.infill.unwrap().infill_density, 500_000);
    assert_eq!(p.infill.unwrap().infill_pattern, InfillPattern::Gyroid);
    assert_eq!(p.print_settings.unwrap().layer_height, 100_000);
    assert_eq!(p.print_settings.unwrap().infill_density, 350_000);

    p.quality = None;
    p.infill = None;
    p.set_layer_height(120_000);
    p.set_infill_density(600_000);
    assert_eq!(p.print_settings.unwrap().layer_height, 120_000);
    assert_eq!(p.print_settings.unwrap().infill_density, 600_000);
    assert_eq!(p.print_settings.unwrap().perimeters, 2);
    assert_eq!(p.get_layer_height(), 120_000);
    assert_eq!(p.get_infill_density(), 600_000);

    p.print_settings = None;
    p.set_layer_height(50_000);
    p.set_infill_density(900_000);
    assert!(p.quality.is_none() && p.infill.is_none() && p.print_settings.is_none());
    assert_eq!(p.get_layer_height(), 200_000);
    assert_eq!(p.get_infill_density(), 200_000);
}

#[test]
fn ratios_in_whole_per_cent() {
    assert_eq!(ratio_percent(200_000), 20);
    assert_eq!(ratio_percent(199_999), 19);
    assert_eq!(ratio_percent(9_999), 0);
    assert_eq!(ratio_percent(10_000), 1);
    assert_eq!(ratio_percent(1_000_000), 100);
    assert_eq!(ratio_percent(0), 0);
    assert_eq!(ratio_percent(-1), 0);
    assert_eq!(ratio_percent(i64::MIN), 0);
    assert_eq!(ratio_percent(2_549_999), 254);
    assert_eq!(ratio_percent(2_550_000), 255);
    assert_eq!(ratio_percent(i64::MAX), 255);
}
