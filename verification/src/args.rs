//! The options of a run, and what they decide before any work starts.

use vstd::prelude::*;

verus! {

/// The image format of the archive.
#[derive(Debug, Clone, Copy, PartialEq, Eq, Structural)]
pub enum Format {
    JPEG,
    PNG,
}

impl Default for Format {
    fn default() -> (format: Format)
        ensures
            format == Format::JPEG,
    {
        Format::JPEG
    }
}

impl Format {
    /// The name of the format in the archive's metadata.
    pub fn name(&self) -> (text: &'static str)
        ensures
            text@ == match self {
                Format::JPEG => "jpeg"@,
                Format::PNG => "png"@,
            },
    {
        match self {
            Format::JPEG => "jpeg",
            Format::PNG => "png",
        }
    }
}

/// Why the files named by the options cannot be worked with.
#[derive(Debug, Clone, Copy, PartialEq, Eq, Structural)]
pub enum ArgsError {
    /// The target exists and no archive to continue from is named.
    TargetExists,
    /// The archive to continue from does not exist.
    ContinueMissing,
}

/// The options of a run.
pub struct Args {
    /// Input raster geofile
    pub source_file: String,
    /// Output archive
    pub target_file: String,
    /// Archive of an earlier run to continue from; the same as the target
    /// to continue in place
    pub continue_file: Option<String>,
    /// Max zoom level
    pub max_zoom: u8,
    /// Source SRS
    pub source_srs: Option<String>,
    /// Projection transformation pipeline
    pub transform_pipeline: Option<String>,
    /// Bounding polygon in a GeoJSON file
    pub bounding_polygon: Option<String>,
    /// Tile size
    pub tile_size: u16,
    /// Number of threads; the available parallelism where none is given
    pub num_threads: Option<u16>,
    pub format: Format,
    /// JPEG quality
    pub jpeg_quality: u8,
    /// Zoom offset of the parent tile that is reprojected at once
    pub warp_zoom_offset: u8,
    pub debug: bool,
    /// Whether a row is written for a tile without an image
    pub insert_empty: bool,
}

impl Args {
    /// Whether the run continues in the archive it writes to.
    pub open spec fn continues_in_place(&self) -> bool {
        self.continue_file matches Some(path) && path@ == self.target_file@
    }

    /// Checks the files that the options name against what is on disk: an
    /// existing target is only accepted together with an archive to
    /// continue from, and that archive has to exist.
    pub fn check_files(&self, target_exists: bool, continue_exists: bool) -> (out: Result<
        (),
        ArgsError,
    >)
        ensures
            out == if target_exists && self.continue_file is None {
                Err::<(), ArgsError>(ArgsError::TargetExists)
            } else if self.continue_file is Some && !continue_exists {
                Err::<(), ArgsError>(ArgsError::ContinueMissing)
            } else {
                Ok::<(), ArgsError>(())
            },
    {
        if target_exists && self.continue_file.is_none() {
            Err(ArgsError::TargetExists)
        } else if self.continue_file.is_some() && !continue_exists {
            Err(ArgsError::ContinueMissing)
        } else {
            Ok(())
        }
    }

    /// Whether the target is a new archive whose tables have to be made:
    /// it is, unless the run continues in place.
    pub fn starts_archive(&self) -> (fresh: bool)
        ensures
            fresh == !self.continues_in_place(),
    {
        match &self.continue_file {
            None => true,
            Some(path) => !(*path == self.target_file),
        }
    }

    /// Number of worker threads: the number asked for, or all that the
    /// machine offers.
    pub fn workers(&self, available: u16) -> (n: u16)
        ensures
            n == match self.num_threads {
                Some(asked) => asked,
                None => available,
            },
    {
        match self.num_threads {
            Some(asked) => asked,
            None => available,
        }
    }
}

} // verus!
