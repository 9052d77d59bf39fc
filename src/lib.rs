//! Hand-drawn digital waveforms: fixed-width multi-word values that read and print in four
//! bases, signal timelines built on them, and an importer for value change dumps.
pub mod import;
pub mod numeral;
pub mod parse;
pub mod project;
pub mod value;
pub mod wave;
pub mod words;
pub mod wtype;

pub use import::{import_records, import_vcd, DumpCommand, ImportError, VarDecl, VarKind};
pub use parse::{Cause, Diagnostic};
pub use project::{
    add_wave, apply_settings, export_data, sweep_deleted, ExportData, ExportError, ExportVariable,
    ProjectExport, ProjectSettings, WindowResult,
};
pub use value::BitValue;
pub use wave::{StateEdit, TypeChange, Wave, WaveDisplay, WaveSign, WaveState};
pub use wtype::{Clock, WaveType};
