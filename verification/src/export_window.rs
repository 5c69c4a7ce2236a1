//! Export-dialog state: the formats an export may convert to and the
//! dialog's own bookkeeping. The surrounding presentation layer renders the
//! dialog and performs the export.

use vstd::prelude::*;

verus! {

/// The format a texture is exported in.
#[derive(Debug, Clone, Copy, PartialEq, Eq, Structural)]
pub enum TextureFormat {
    OriginalDds,
    WebP,
    Png,
}

/// The format an audio asset is exported in.
#[derive(Debug, Clone, Copy, PartialEq, Eq, Structural)]
pub enum AudioFormat {
    Original,
    Wav,
}

/// The format a tabular asset is exported in.
#[derive(Debug, Clone, Copy, PartialEq, Eq, Structural)]
pub enum DataFormat {
    Original,
    Json,
}

/// The format a passive-skill-graph asset is exported in.
#[derive(Debug, Clone, Copy, PartialEq, Eq, Structural)]
pub enum PsgFormat {
    Original,
    Json,
}

/// The chosen export formats and whether folders are exported recursively.
#[derive(Debug, Clone, Copy, PartialEq, Eq, Structural)]
pub struct ExportSettings {
    pub texture_format: TextureFormat,
    pub audio_format: AudioFormat,
    pub data_format: DataFormat,
    pub psg_format: PsgFormat,
    pub recursive: bool,
}

impl Default for ExportSettings {
    /// Every format keeps the original encoding; folders export recursively.
    fn default() -> (r: Self)
        ensures
            r == (ExportSettings {
                texture_format: TextureFormat::OriginalDds,
                audio_format: AudioFormat::Original,
                data_format: DataFormat::Original,
                psg_format: PsgFormat::Original,
                recursive: true,
            }),
    {
        ExportSettings {
            texture_format: TextureFormat::OriginalDds,
            audio_format: AudioFormat::Original,
            data_format: DataFormat::Original,
            psg_format: PsgFormat::Original,
            recursive: true,
        }
    }
}

/// The export dialog's state: whether it is open, the chosen settings,
/// whether the user confirmed, the name of the export target, whether the
/// target is a folder, and the path hashes to export.
pub struct ExportWindow {
    pub open: bool,
    pub settings: ExportSettings,
    pub confirmed: bool,
    pub target_name: String,
    pub is_folder: bool,
    pub hashes: Vec<u64>,
}

impl Default for ExportWindow {
    /// A closed, unconfirmed dialog with default settings and no target.
    fn default() -> (r: Self)
        ensures
            !r.open && !r.confirmed && !r.is_folder,
            r.target_name@ == Seq::<char>::empty(),
            r.hashes@ == Seq::<u64>::empty(),
            r.settings == (ExportSettings {
                texture_format: TextureFormat::OriginalDds,
                audio_format: AudioFormat::Original,
                data_format: DataFormat::Original,
                psg_format: PsgFormat::Original,
                recursive: true,
            }),
    {
        ExportWindow {
            open: false,
            settings: ExportSettings::default(),
            confirmed: false,
            target_name: String::new(),
            is_folder: false,
            hashes: Vec::new(),
        }
    }
}

impl ExportWindow {
    /// A fresh, closed dialog.
    pub fn new() -> (r: Self)
        ensures
            !r.open && !r.confirmed && !r.is_folder,
            r.target_name@ == Seq::<char>::empty(),
            r.hashes@ == Seq::<u64>::empty(),
    {
        Self::default()
    }

    /// Opens the dialog for `name`: clears any earlier confirmation, records
    /// whether the target is a folder, and resets the recursive flag to
    /// match (a single file is never exported recursively).
    pub fn open_for(&mut self, name: &str, is_folder: bool)
        ensures
            final(self).open,
            !final(self).confirmed,
            final(self).target_name@ == name@,
            final(self).is_folder == is_folder,
            final(self).settings.recursive == is_folder,
            final(self).hashes == old(self).hashes,
    {
        self.open = true;
        self.confirmed = false;
        self.target_name = name.to_owned();
        self.is_folder = is_folder;
        if !is_folder {
            self.settings.recursive = false;
        } else {
            self.settings.recursive = true;
        }
    }
}

} // verus!
