//! Print profiles: what the machine and the material are, and how the
//! print is to be made.
//!
//! Every setting that is not a whole number by nature is held in
//! millionths of its unit: a length in grid units, a speed in grid units
//! a second, a ratio in parts per million, an angle in millionths of a
//! degree, a time in microseconds. Lengths have the width of a
//! coordinate.

use vstd::prelude::*;
use crate::error::SlicerError;

verus! {

/// One whole, in the millionths that ratios are held in.
pub const ONE: i64 = 1_000_000;

/// The layer thickness of a profile that names none.
pub const FALLBACK_LAYER_HEIGHT: i32 = 200_000;

/// The first layer's thickness of a profile that names none.
pub const FALLBACK_FIRST_LAYER_HEIGHT: i32 = 300_000;

/// The infill density of a profile that names none.
pub const FALLBACK_INFILL_DENSITY: i64 = 200_000;

/// Who made a profile, and what it is called.
#[derive(Debug, Clone)]
pub struct Metadata {
    pub profile_name: String,
    pub version: String,
    pub author: String,
}

/// Where the model comes from and how it is placed.
#[derive(Debug, Clone)]
pub struct InputSettings {
    pub stl_path: String,
    pub x_rotation: i64,
    pub y_rotation: i64,
    pub z_rotation: i64,
    pub scale: i64,
}

/// Where the machine instructions go.
#[derive(Debug, Clone)]
pub struct OutputSettings {
    pub gcode_path: String,
    pub thumbnail: bool,
    pub comments: bool,
}

/// How fine the print is.
#[derive(Debug, Clone, Copy)]
pub struct QualitySettings {
    pub layer_height: i32,
    pub first_layer_height: i32,
    pub line_width: i32,
    pub perimeters: usize,
    pub top_solid_layers: usize,
    pub bottom_solid_layers: usize,
}

/// How fast each kind of move is made.
#[derive(Debug, Clone, Copy)]
pub struct SpeedSettings {
    pub external_perimeter_speed: i64,
    pub perimeter_speed: i64,
    pub infill_speed: i64,
    pub solid_infill_speed: i64,
    pub travel_speed: i64,
    pub first_layer_speed: i64,
}

/// The shape in which the inside of the print is filled.
#[derive(Debug, Clone, Copy, PartialEq, Eq, Structural)]
pub enum InfillPattern {
    Rectilinear,
    Honeycomb,
    Gyroid,
    Concentric,
}

/// How the inside of the print is filled.
#[derive(Debug, Clone, Copy)]
pub struct InfillSettings {
    pub infill_density: i64,
    pub infill_pattern: InfillPattern,
    pub support_material: bool,
    pub support_density: i64,
}

/// What is printed with.
#[derive(Debug, Clone)]
pub struct FilamentSettings {
    pub filament_type: String,
    pub temperature: u16,
    pub bed_temperature: u16,
    pub first_layer_temperature: Option<u16>,
    pub first_layer_bed_temperature: Option<u16>,
    pub filament_diameter: i32,
    pub flow_rate: i64,
    pub fan_speed: u8,
    pub cooling_min_layer_time: i64,
}

/// What is printed on.
#[derive(Debug, Clone)]
pub struct MachineConfig {
    pub printer_type: String,
    pub build_volume: [i32; 3],
    pub nozzle_diameter: i32,
    pub filament_diameter: i32,
    pub max_feedrate: [i64; 4],
    pub max_acceleration: [i64; 4],
}

/// Print settings in the older, flat layout.
#[derive(Debug, Clone, Copy)]
pub struct PrintSettings {
    pub layer_height: i32,
    pub first_layer_height: i32,
    pub line_width: i32,
    pub perimeters: usize,
    pub external_perimeter_speed: i64,
    pub perimeter_speed: i64,
    pub top_solid_layers: usize,
    pub bottom_solid_layers: usize,
    pub infill_density: i64,
    pub infill_pattern: InfillPattern,
    pub infill_speed: i64,
    pub solid_infill_speed: i64,
    pub support_material: bool,
}

/// Material settings in the older, flat layout.
#[derive(Debug, Clone)]
pub struct MaterialSettings {
    pub material_type: String,
    pub nozzle_temperature: u16,
    pub bed_temperature: u16,
    pub first_layer_nozzle_temp: u16,
    pub first_layer_bed_temp: u16,
    pub fan_speed: u8,
}

/// Settings few prints need to touch.
#[derive(Debug, Clone, Copy)]
pub struct AdvancedSettings {
    pub retraction_length: i32,
    pub retraction_speed: i64,
    pub retraction_z_lift: i32,
}

/// How machine instructions are written.
#[derive(Debug, Clone)]
pub struct GCodeSettings {
    pub gcode_flavor: String,
    pub use_relative_e: bool,
    pub start_gcode: String,
    pub end_gcode: String,
}

/// A complete print profile. The sections `quality`, `speed`, `infill`
/// and `filament` are the current layout; `print_settings`, `material`
/// and `advanced` are the older one, read where the current one is
/// silent.
#[derive(Debug, Clone)]
pub struct PrintProfile {
    pub metadata: Metadata,
    pub input: Option<InputSettings>,
    pub output: Option<OutputSettings>,
    pub machine: MachineConfig,
    pub quality: Option<QualitySettings>,
    pub speed: Option<SpeedSettings>,
    pub infill: Option<InfillSettings>,
    pub filament: Option<FilamentSettings>,
    pub print_settings: Option<PrintSettings>,
    pub material: Option<MaterialSettings>,
    pub advanced: Option<AdvancedSettings>,
    pub gcode: GCodeSettings,
}

/// The name of a profile that gives none.
pub fn default_profile_name() -> (s: String)
    ensures
        s@ == "Default Profile"@,
{
    "Default Profile".to_string()
}

/// The version of a profile that gives none.
pub fn default_version() -> (s: String)
    ensures
        s@ == "1.0"@,
{
    "1.0".to_string()
}

/// The first layer's thickness where a quality section gives none: 0.3 mm.
pub fn default_first_layer_height() -> (h: i32)
    ensures
        h == 300_000,
{
    300_000
}

/// The line width where a quality section gives none: 0.4 mm.
pub fn default_line_width() -> (w: i32)
    ensures
        w == 400_000,
{
    400_000
}

/// The number of perimeters where a quality section gives none.
pub fn default_perimeters() -> (n: usize)
    ensures
        n == 3,
{
    3
}

/// The number of solid top layers where a quality section gives none.
pub fn default_top_layers() -> (n: usize)
    ensures
        n == 4,
{
    4
}

/// The number of solid bottom layers where a quality section gives none.
pub fn default_bottom_layers() -> (n: usize)
    ensures
        n == 3,
{
    3
}

/// The speed of outer perimeters where none is given: 40 mm/s.
pub fn default_external_perimeter_speed() -> (v: i64)
    ensures
        v == 40_000_000,
{
    40_000_000
}

/// The speed of perimeters where none is given: 60 mm/s.
pub fn default_perimeter_speed() -> (v: i64)
    ensures
        v == 60_000_000,
{
    60_000_000
}

/// The speed of infill where none is given: 80 mm/s.
pub fn default_infill_speed() -> (v: i64)
    ensures
        v == 80_000_000,
{
    80_000_000
}

/// The speed of solid infill where none is given: 60 mm/s.
pub fn default_solid_infill_speed() -> (v: i64)
    ensures
        v == 60_000_000,
{
    60_000_000
}

/// The speed of travel moves where none is given: 150 mm/s.
pub fn default_travel_speed() -> (v: i64)
    ensures
        v == 150_000_000,
{
    150_000_000
}

/// The speed of the first layer where none is given: 20 mm/s.
pub fn default_first_layer_speed() -> (v: i64)
    ensures
        v == 20_000_000,
{
    20_000_000
}

/// The infill density where none is given: a fifth.
pub fn default_infill_density() -> (d: i64)
    ensures
        d == 200_000,
{
    200_000
}

/// The density of support material where none is given: 15 %.
pub fn default_support_density() -> (d: i64)
    ensures
        d == 150_000,
{
    150_000
}

/// The filament of a profile that names none.
pub fn default_filament_type() -> (s: String)
    ensures
        s@ == "PLA"@,
{
    "PLA".to_string()
}

/// The flow rate where none is given: the whole.
pub fn default_flow_rate() -> (r: i64)
    ensures
        r == ONE,
{
    ONE
}

/// The fan speed where none is given: all of it, in per cent.
pub fn default_fan_speed() -> (s: u8)
    ensures
        s == 100,
{
    100
}

/// The filament diameter where a machine gives none: 1.75 mm.
pub fn default_filament_diameter() -> (d: i32)
    ensures
        d == 1_750_000,
{
    1_750_000
}

/// The dialect of machine instructions where none is named.
pub fn default_gcode_flavor() -> (s: String)
    ensures
        s@ == "marlin"@,
{
    "marlin".to_string()
}

impl Default for Metadata {
    fn default() -> (m: Metadata)
        ensures
            m.profile_name@.len() == 0,
            m.version@.len() == 0,
            m.author@.len() == 0,
    {
        Metadata { profile_name: String::new(), version: String::new(), author: String::new() }
    }
}

impl Default for InputSettings {
    fn default() -> (s: InputSettings)
        ensures
            s.stl_path@ == "model.stl"@,
            s.x_rotation == 0,
            s.y_rotation == 0,
            s.z_rotation == 0,
            s.scale == ONE,
    {
        InputSettings {
            stl_path: "model.stl".to_string(),
            x_rotation: 0,
            y_rotation: 0,
            z_rotation: 0,
            scale: ONE,
        }
    }
}

impl Default for OutputSettings {
    fn default() -> (s: OutputSettings)
        ensures
            s.gcode_path@ == "output.gcode"@,
            !s.thumbnail,
            s.comments,
    {
        OutputSettings { gcode_path: "output.gcode".to_string(), thumbnail: false, comments: true }
    }
}

impl Default for InfillPattern {
    fn default() -> (p: InfillPattern)
        ensures
            p == InfillPattern::Gyroid,
    {
        InfillPattern::Gyroid
    }
}

impl Default for GCodeSettings {
    fn default() -> (s: GCodeSettings)
        ensures
            s.gcode_flavor@.len() == 0,
            !s.use_relative_e,
            s.start_gcode@.len() == 0,
            s.end_gcode@.len() == 0,
    {
        GCodeSettings {
            gcode_flavor: String::new(),
            use_relative_e: false,
            start_gcode: String::new(),
            end_gcode: String::new(),
        }
    }
}

/// A ratio in whole per cent, rounded down, and kept within what a
/// single byte can say.
pub open spec fn percent_of(ratio: int) -> int {
    if ratio <= 0 {
        0
    } else if ratio / 10_000 >= 255 {
        255
    } else {
        ratio / 10_000
    }
}

/// A ratio in whole per cent.
pub fn ratio_percent(ratio: i64) -> (p: u8)
    ensures
        p == percent_of(ratio as int),
{
    if ratio <= 0 {
        0
    } else if ratio / 10_000 >= 255 {
        255
    } else {
        (ratio / 10_000) as u8
    }
}

/// A density is a part of the whole: neither negative nor more than
/// one.
pub open spec fn is_density(d: int) -> bool {
    0 <= d <= ONE
}

impl PrintProfile {
    /// What is wrong with the profile, in words; nothing where it is
    /// sound. The current layout is looked at before the older one, and
    /// in each the layer height before the infill density.
    pub open spec fn fault(self) -> Option<Seq<char>> {
        if self.quality matches Some(q) && q.layer_height <= 0 {
            Some("Layer height must be positive"@)
        } else if self.infill matches Some(i) && !is_density(i.infill_density as int) {
            Some("Infill density must be 0.0-1.0"@)
        } else if self.print_settings matches Some(ps) && ps.layer_height <= 0 {
            Some("Layer height must be positive"@)
        } else if self.print_settings matches Some(ps) && !is_density(ps.infill_density as int) {
            Some("Infill density must be 0.0-1.0"@)
        } else {
            None
        }
    }

    /// The layer height the profile asks for: that of the quality
    /// section, else that of the older print settings, else 0.2 mm.
    pub open spec fn layer_height(self) -> int {
        match self.quality {
            Some(q) => q.layer_height as int,
            None => match self.print_settings {
                Some(ps) => ps.layer_height as int,
                None => FALLBACK_LAYER_HEIGHT as int,
            },
        }
    }

    /// The first layer's height the profile asks for: that of the
    /// quality section, else that of the older print settings, else
    /// 0.3 mm.
    pub open spec fn first_layer_height(self) -> int {
        match self.quality {
            Some(q) => q.first_layer_height as int,
            None => match self.print_settings {
                Some(ps) => ps.first_layer_height as int,
                None => FALLBACK_FIRST_LAYER_HEIGHT as int,
            },
        }
    }

    /// The infill density the profile asks for: that of the infill
    /// section, else that of the older print settings, else a fifth.
    pub open spec fn infill_density(self) -> int {
        match self.infill {
            Some(i) => i.infill_density as int,
            None => match self.print_settings {
                Some(ps) => ps.infill_density as int,
                None => FALLBACK_INFILL_DENSITY as int,
            },
        }
    }

    /// The profile is the one for PLA on a common desktop machine: a
    /// 0.4 mm nozzle, layers of 0.2 mm on a first layer of 0.3 mm, a fifth
    /// of the inside filled, 210 degrees at the nozzle and 60 at the bed.
    pub open spec fn is_default_pla(self) -> bool {
        &&& self.metadata.profile_name@ == "Default PLA"@
        &&& self.metadata.version@ == "1.0"@
        &&& self.metadata.author@ == "RustSlicer"@
        &&& self.input is None
        &&& self.output is None
        &&& self.machine.printer_type@ == "cartesian"@
        &&& self.machine.build_volume@ == seq![220_000_000i32, 220_000_000i32, 250_000_000i32]
        &&& self.machine.nozzle_diameter == 400_000
        &&& self.machine.filament_diameter == 1_750_000
        &&& self.machine.max_feedrate@ == seq![
            300_000_000i64,
            300_000_000i64,
            12_000_000i64,
            80_000_000i64,
        ]
        &&& self.machine.max_acceleration@ == seq![
            3_000_000_000i64,
            3_000_000_000i64,
            100_000_000i64,
            5_000_000_000i64,
        ]
        &&& self.quality == Some(
            QualitySettings {
                layer_height: 200_000,
                first_layer_height: 300_000,
                line_width: 400_000,
                perimeters: 3,
                top_solid_layers: 4,
                bottom_solid_layers: 3,
            },
        )
        &&& self.speed == Some(
            SpeedSettings {
                external_perimeter_speed: 40_000_000,
                perimeter_speed: 60_000_000,
                infill_speed: 80_000_000,
                solid_infill_speed: 60_000_000,
                travel_speed: 150_000_000,
                first_layer_speed: 20_000_000,
            },
        )
        &&& self.infill == Some(
            InfillSettings {
                infill_density: 200_000,
                infill_pattern: InfillPattern::Gyroid,
                support_material: false,
                support_density: 150_000,
            },
        )
        &&& self.filament matches Some(f) && {
            &&& f.filament_type@ == "PLA"@
            &&& f.temperature == 210
            &&& f.bed_temperature == 60
            &&& f.first_layer_temperature == Some(215u16)
            &&& f.first_layer_bed_temperature == Some(65u16)
            &&& f.filament_diameter == 1_750_000
            &&& f.flow_rate == ONE
            &&& f.fan_speed == 100
            &&& f.cooling_min_layer_time == 10_000_000
        }
        &&& self.print_settings is None
        &&& self.material is None
        &&& self.advanced is None
        &&& self.gcode.gcode_flavor@ == "marlin"@
        &&& !self.gcode.use_relative_e
        &&& self.gcode.start_gcode@ == "G28 ; Home\nG1 Z15.0 F6000\n"@
        &&& self.gcode.end_gcode@ == "M104 S0\nM140 S0\nM84\n"@
    }

    /// The profile for PLA on a common desktop machine.
    pub fn default_pla() -> (p: PrintProfile)
        ensures
            p.is_default_pla(),
            p.fault() is None,
    {
        PrintProfile {
            metadata: Metadata {
                profile_name: "Default PLA".to_string(),
                version: "1.0".to_string(),
                author: "RustSlicer".to_string(),
            },
            input: None,
            output: None,
            machine: MachineConfig {
                printer_type: "cartesian".to_string(),
                build_volume: [220_000_000, 220_000_000, 250_000_000],
                nozzle_diameter: 400_000,
                filament_diameter: 1_750_000,
                max_feedrate: [300_000_000, 300_000_000, 12_000_000, 80_000_000],
                max_acceleration: [3_000_000_000, 3_000_000_000, 100_000_000, 5_000_000_000],
            },
            quality: Some(
                QualitySettings {
                    layer_height: 200_000,
                    first_layer_height: 300_000,
                    line_width: 400_000,
                    perimeters: 3,
                    top_solid_layers: 4,
                    bottom_solid_layers: 3,
                },
            ),
            speed: Some(
                SpeedSettings {
                    external_perimeter_speed: 40_000_000,
                    perimeter_speed: 60_000_000,
                    infill_speed: 80_000_000,
                    solid_infill_speed: 60_000_000,
                    travel_speed: 150_000_000,
                    first_layer_speed: 20_000_000,
                },
            ),
            infill: Some(
                InfillSettings {
                    infill_density: 200_000,
                    infill_pattern: InfillPattern::Gyroid,
                    support_material: false,
                    support_density: 150_000,
                },
            ),
            filament: Some(
                FilamentSettings {
                    filament_type: "PLA".to_string(),
                    temperature: 210,
                    bed_temperature: 60,
                    first_layer_temperature: Some(215),
                    first_layer_bed_temperature: Some(65),
                    filament_diameter: 1_750_000,
                    flow_rate: ONE,
                    fan_speed: 100,
                    cooling_min_layer_time: 10_000_000,
                },
            ),
            print_settings: None,
            material: None,
            advanced: None,
            gcode: GCodeSettings {
                gcode_flavor: "marlin".to_string(),
                use_relative_e: false,
                start_gcode: "G28 ; Home\nG1 Z15.0 F6000\n".to_string(),
                end_gcode: "M104 S0\nM140 S0\nM84\n".to_string(),
            },
        }
    }

    /// Checks the profile and says what is wrong with it.
    pub fn validate(&self) -> (r: Result<(), SlicerError>)
        ensures
            r is Ok <==> self.fault() is None,
            r matches Err(e) ==> e is ConfigError && self.fault() == Some(e.message()),
    {
        match &self.quality {
            Some(quality) => {
                if quality.layer_height <= 0 {
                    return Err(
                        SlicerError::ConfigError("Layer height must be positive".to_string()),
                    );
                }
            },
            None => {},
        }
        match &self.infill {
            Some(infill) => {
                if infill.infill_density < 0 || infill.infill_density > ONE {
                    return Err(
                        SlicerError::ConfigError("Infill density must be 0.0-1.0".to_string()),
                    );
                }
            },
            None => {},
        }
        match &self.print_settings {
            Some(ps) => {
                if ps.layer_height <= 0 {
                    return Err(
                        SlicerError::ConfigError("Layer height must be positive".to_string()),
                    );
                }
                if ps.infill_density < 0 || ps.infill_density > ONE {
                    return Err(
                        SlicerError::ConfigError("Infill density must be 0.0-1.0".to_string()),
                    );
                }
            },
            None => {},
        }
        Ok(())
    }

    /// The layer height the profile asks for.
    pub fn get_layer_height(&self) -> (h: i32)
        ensures
            h == self.layer_height(),
    {
        match &self.quality {
            Some(q) => q.layer_height,
            None => match &self.print_settings {
                Some(ps) => ps.layer_height,
                None => FALLBACK_LAYER_HEIGHT,
            },
        }
    }

    /// The first layer's height the profile asks for.
    pub fn get_first_layer_height(&self) -> (h: i32)
        ensures
            h == self.first_layer_height(),
    {
        match &self.quality {
            Some(q) => q.first_layer_height,
            None => match &self.print_settings {
                Some(ps) => ps.first_layer_height,
                None => FALLBACK_FIRST_LAYER_HEIGHT,
            },
        }
    }

    /// The infill density the profile asks for.
    pub fn get_infill_density(&self) -> (d: i64)
        ensures
            d == self.infill_density(),
    {
        match &self.infill {
            Some(i) => i.infill_density,
            None => match &self.print_settings {
                Some(ps) => ps.infill_density,
                None => FALLBACK_INFILL_DENSITY,
            },
        }
    }

    /// Replaces the layer height the profile asks for. It is written to
    /// the quality section where there is one, else to the older print
    /// settings where there are any; a profile with neither is left as
    /// it is.
    pub fn set_layer_height(&mut self, height: i32)
        ensures
            *final(self) == (PrintProfile {
                quality: match old(self).quality {
                    Some(q) => Some(QualitySettings { layer_height: height, ..q }),
                    None => None,
                },
                print_settings: match (old(self).quality, old(self).print_settings) {
                    (None, Some(ps)) => Some(PrintSettings { layer_height: height, ..ps }),
                    (_, other) => other,
                },
                ..*old(self)
            }),
            old(self).quality is Some || old(self).print_settings is Some
                ==> final(self).layer_height() == height,
    {
        match self.quality {
            Some(q) => {
                self.quality = Some(
                    QualitySettings {
                        layer_height: height,
                        first_layer_height: q.first_layer_height,
                        line_width: q.line_width,
                        perimeters: q.perimeters,
                        top_solid_layers: q.top_solid_layers,
                        bottom_solid_layers: q.bottom_solid_layers,
                    },
                );
            },
            None => match self.print_settings {
                Some(ps) => {
                    self.print_settings = Some(
                        PrintSettings {
                            layer_height: height,
                            first_layer_height: ps.first_layer_height,
                            line_width: ps.line_width,
                            perimeters: ps.perimeters,
                            external_perimeter_speed: ps.external_perimeter_speed,
                            perimeter_speed: ps.perimeter_speed,
                            top_solid_layers: ps.top_solid_layers,
                            bottom_solid_layers: ps.bottom_solid_layers,
                            infill_density: ps.infill_density,
                            infill_pattern: ps.infill_pattern,
                            infill_speed: ps.infill_speed,
                            solid_infill_speed: ps.solid_infill_speed,
                            support_material: ps.support_material,
                        },
                    );
                },
                None => {},
            },
        }
    }

    /// Replaces the infill density the profile asks for. It is written
    /// to the infill section where there is one, else to the older print
    /// settings where there are any; a profile with neither is left as
    /// it is.
    pub fn set_infill_density(&mut self, density: i64)
        ensures
            *final(self) == (PrintProfile {
                infill: match old(self).infill {
                    Some(i) => Some(InfillSettings { infill_density: density, ..i }),
                    None => None,
                },
                print_settings: match (old(self).infill, old(self).print_settings) {
                    (None, Some(ps)) => Some(PrintSettings { infill_density: density, ..ps }),
                    (_, other) => other,
                },
                ..*old(self)
            }),
            old(self).infill is Some || old(self).print_settings is Some
                ==> final(self).infill_density() == density,
    {
        match self.infill {
            Some(i) => {
                self.infill = Some(
                    InfillSettings {
                        infill_density: density,
                        infill_pattern: i.infill_pattern,
                        support_material: i.support_material,
                        support_density: i.support_density,
                    },
                );
            },
            None => match self.print_settings {
                Some(ps) => {
                    self.print_settings = Some(
                        PrintSettings {
                            layer_height: ps.layer_height,
                            first_layer_height: ps.first_layer_height,
                            line_width: ps.line_width,
                            perimeters: ps.perimeters,
                            external_perimeter_speed: ps.external_perimeter_speed,
                            perimeter_speed: ps.perimeter_speed,
                            top_solid_layers: ps.top_solid_layers,
                            bottom_solid_layers: ps.bottom_solid_layers,
                            infill_density: density,
                            infill_pattern: ps.infill_pattern,
                            infill_speed: ps.infill_speed,
                            solid_infill_speed: ps.solid_infill_speed,
                            support_material: ps.support_material,
                        },
                    );
                },
                None => {},
            },
        }
    }
}

} // verus!
