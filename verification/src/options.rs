use vstd::prelude::*;

use crate::deflate::Deflaters;

verus! {

/// Which ancillary chunks to strip from the output
#[derive(Debug, Clone)]
pub enum StripChunks {
    /// Keep every chunk
    KeepAll,
    /// Strip the listed chunks
    Strip(Vec<[u8; 4]>),
    /// Strip every chunk but those that affect rendering
    Safe,
    /// Keep only the listed chunks
    Keep(Vec<[u8; 4]>),
    /// Strip every ancillary chunk
    All,
}

/// The names of the chunks that `Safe` keeps.
pub open spec fn safe_names() -> Seq<Seq<u8>> {
    seq![
        seq![99u8, 72u8, 82u8, 77u8],
        seq![103u8, 65u8, 77u8, 65u8],
        seq![105u8, 67u8, 67u8, 80u8],
        seq![115u8, 66u8, 73u8, 84u8],
        seq![115u8, 82u8, 71u8, 66u8],
        seq![98u8, 75u8, 71u8, 68u8],
        seq![104u8, 73u8, 83u8, 84u8],
        seq![112u8, 72u8, 89u8, 115u8],
        seq![115u8, 80u8, 76u8, 84u8],
    ]
}

/// Whether a list of chunk names holds `name`.
pub open spec fn names_contain(names: Seq<[u8; 4]>, name: Seq<u8>) -> bool {
    exists|i: int| 0 <= i < names.len() && names[i]@ == name
}

/// Whether the two chunk names are the same.
pub fn same_name(a: &[u8; 4], b: &[u8; 4]) -> (r: bool)
    ensures
        r == (a@ == b@),
{
    let r = a[0] == b[0] && a[1] == b[1] && a[2] == b[2] && a[3] == b[3];
    proof {
        if r {
            assert(a@ =~= b@);
        }
        if a@ == b@ {
            assert(a@[0] == b@[0] && a@[1] == b@[1] && a@[2] == b@[2] && a@[3] == b@[3]);
        }
    }
    r
}

fn list_contains(names: &Vec<[u8; 4]>, name: &[u8; 4]) -> (r: bool)
    ensures
        r == names_contain(names@, name@),
{
    let mut i: usize = 0;
    while i < names.len()
        invariant
            i <= names@.len(),
            forall|j: int| 0 <= j < i ==> names@[j]@ != name@,
        decreases names@.len() - i,
    {
        if same_name(&names[i], name) {
            return true;
        }
        i += 1;
    }
    false
}

fn safe_contains(name: &[u8; 4]) -> (r: bool)
    ensures
        r == safe_names().contains(name@),
{
    let safe: [[u8; 4]; 9] = [
        [99, 72, 82, 77],
        [103, 65, 77, 65],
        [105, 67, 67, 80],
        [115, 66, 73, 84],
        [115, 82, 71, 66],
        [98, 75, 71, 68],
        [104, 73, 83, 84],
        [112, 72, 89, 115],
        [115, 80, 76, 84],
    ];
    assert(forall|j: int| 0 <= j < 9 ==> (#[trigger] safe@[j])@ == safe_names()[j]);
    let mut i: usize = 0;
    while i < 9
        invariant
            i <= 9,
            forall|j: int| 0 <= j < 9 ==> (#[trigger] safe@[j])@ == safe_names()[j],
            forall|j: int| 0 <= j < i ==> safe_names()[j] != name@,
        decreases 9 - i,
    {
        if same_name(&safe[i], name) {
            assert(safe_names()[i as int] == name@);
            return true;
        }
        i += 1;
    }
    false
}

impl StripChunks {
    /// Whether a chunk with this name stays in the output.
    pub open spec fn spec_keep(&self, name: Seq<u8>) -> bool {
        match self {
            StripChunks::KeepAll => true,
            StripChunks::Keep(names) => names_contain(names@, name),
            StripChunks::Strip(names) => !names_contain(names@, name),
            StripChunks::Safe => safe_names().contains(name),
            StripChunks::All => false,
        }
    }

    /// Whether a chunk with this name stays in the output.
    pub fn keep(&self, name: &[u8; 4]) -> (r: bool)
        ensures
            r == self.spec_keep(name@),
    {
        match self {
            StripChunks::KeepAll => true,
            StripChunks::Keep(names) => list_contains(names, name),
            StripChunks::Strip(names) => !list_contains(names, name),
            StripChunks::Safe => safe_contains(name),
            StripChunks::All => false,
        }
    }
}

/// The settings of an optimisation
#[derive(Debug, Clone)]
pub struct Options {
    /// Keep a backup of the input file
    pub backup: bool,
    /// Where to write the output
    pub out_file: String,
    /// The directory to write outputs to
    pub out_dir: Option<String>,
    /// Write the output to standard output
    pub stdout: bool,
    /// Ignore CRC mismatches in the input
    pub fix_errors: bool,
    /// Optimise without writing anything
    pub pretend: bool,
    /// Process directories recursively
    pub recursive: bool,
    /// Overwrite existing output files
    pub clobber: bool,
    /// Create the output directory
    pub create: bool,
    /// Write the output even when it is not smaller
    pub force: bool,
    /// Keep file attributes
    pub preserve_attrs: bool,
    /// How much to report
    pub verbosity: Option<u8>,
    /// The filters to try (0-9)
    pub filter: Vec<u8>,
    /// The interlacing to apply, if any (0 or 1)
    pub interlace: Option<u8>,
    /// The zlib compression levels to try
    pub compression: Vec<u8>,
    /// The zlib memory levels to try
    pub memory: Vec<u8>,
    /// The zlib strategies to try
    pub strategies: Vec<u8>,
    /// The zlib window size
    pub window: u8,
    /// Try reducing the bit depth
    pub bit_depth_reduction: bool,
    /// Try reducing the color type
    pub color_type_reduction: bool,
    /// Try reducing the palette
    pub palette_reduction: bool,
    /// Recompress the image data even when nothing else changed
    pub idat_recoding: bool,
    /// Which chunks to strip
    pub strip: StripChunks,
    /// Choose filters and strategies from the image when none are given
    pub use_heuristics: bool,
    /// Refuse images whose decompressed data would exceed this size
    pub max_decompressed_size: Option<usize>,
    /// Alter the colour of fully transparent pixels where that compresses
    /// better
    pub optimize_alpha: bool,
    /// The number of lines that the brute force filter compresses at once
    pub brute_lines: usize,
    /// The libdeflate level of the brute force filter
    pub brute_level: u8,
    /// The compressor of the trials
    pub deflater: Deflaters,
    /// The number of Zopfli iterations, when Zopfli compresses
    pub zopfli_iterations: u64,
}


/// The filters that an optimisation level preset tries (none for levels 0
/// and 1, whose filters are chosen from the image); levels above 6 are 6.
pub open spec fn preset_filters(level: u8) -> Seq<u8> {
    if level <= 1 {
        seq![]
    } else if level == 2 {
        seq![0u8, 1, 6, 7]
    } else if level <= 4 {
        seq![0u8, 7, 8, 9]
    } else if level == 5 {
        seq![0u8, 1, 2, 5, 6, 7, 8, 9]
    } else {
        seq![0u8, 1, 2, 3, 4, 5, 6, 7, 8, 9]
    }
}

/// The compression level of an optimisation level preset.
pub open spec fn preset_compression(level: u8) -> u8 {
    if level == 0 {
        5
    } else if level == 1 {
        10
    } else if level <= 3 {
        11
    } else {
        12
    }
}

/// The brute force settings of a preset: lines and libdeflate level.
pub open spec fn preset_brute(level: u8) -> (usize, u8) {
    if level <= 3 {
        (3, 1)
    } else if level == 4 {
        (4, 1)
    } else if level == 5 {
        (4, 4)
    } else {
        (8, 5)
    }
}

/// Whether the options are those of the preset `level`: its filters,
/// compression level and brute force settings, and otherwise every
/// reduction on, recoding on, heuristics on, every chunk kept and nothing
/// written but the output.
pub open spec fn is_preset(o: Options, level: u8) -> bool {
    &&& o.filter@ == preset_filters(level)
    &&& o.compression@ == seq![preset_compression(level)]
    &&& (o.brute_lines, o.brute_level) == preset_brute(level)
    &&& !o.backup && o.out_file@ == Seq::<char>::empty() && o.out_dir is None && !o.stdout
    &&& !o.fix_errors && !o.pretend && !o.recursive && o.clobber && o.create && !o.force
    &&& !o.preserve_attrs && o.verbosity is None && o.interlace is None
    &&& o.memory@ == seq![9u8] && o.strategies@ == Seq::<u8>::empty() && o.window == 15
    &&& o.bit_depth_reduction && o.color_type_reduction && o.palette_reduction && o.idat_recoding
    &&& o.strip is KeepAll && o.use_heuristics && o.max_decompressed_size is None && !o.optimize_alpha
    &&& o.deflater == Deflaters::Zlib && o.zopfli_iterations == 15
}

/// The presets follow the table of optimisation levels: level 0 compresses
/// at level 5 and level 1 at level 10, both with filters chosen from the
/// image; level 2 at 11 with filters 0, 1, 6 and 7; level 3 at 11 with
/// filters 0, 7, 8 and 9 and brute force over 3 lines at level 1; level 4 at
/// 12 with the same filters and brute force over 4 lines at level 1; level 5
/// at 12 with filters 0, 1, 2, 5, 6, 7, 8 and 9 and brute force over 4 lines
/// at level 4; level 6 and above at 12 with every filter 0 to 9 and brute
/// force over 8 lines at level 5.
pub proof fn lemma_preset_table(o: Options, level: u8)
    requires
        is_preset(o, level),
    ensures
        level == 0 ==> o.filter@ == Seq::<u8>::empty() && o.compression@ == seq![5u8],
        level == 1 ==> o.filter@ == Seq::<u8>::empty() && o.compression@ == seq![10u8],
        level == 2 ==> o.filter@ == seq![0u8, 1u8, 6u8, 7u8] && o.compression@ == seq![11u8],
        level == 3 ==> o.filter@ == seq![0u8, 7u8, 8u8, 9u8] && o.compression@ == seq![11u8] && o.brute_lines == 3
            && o.brute_level == 1,
        level == 4 ==> o.filter@ == seq![0u8, 7u8, 8u8, 9u8] && o.compression@ == seq![12u8] && o.brute_lines == 4
            && o.brute_level == 1,
        level == 5 ==> o.filter@ == seq![0u8, 1u8, 2u8, 5u8, 6u8, 7u8, 8u8, 9u8] && o.compression@ == seq![12u8]
            && o.brute_lines == 4 && o.brute_level == 4,
        level >= 6 ==> o.filter@ == seq![0u8, 1u8, 2u8, 3u8, 4u8, 5u8, 6u8, 7u8, 8u8, 9u8] && o.compression@ == seq![
            12u8,
        ] && o.brute_lines == 8 && o.brute_level == 5,
        o.deflater == Deflaters::Zlib && o.use_heuristics && o.bit_depth_reduction && o.color_type_reduction
            && o.palette_reduction,
{
}

impl Options {
    /// The options of an optimisation level preset (0 to 6; higher levels
    /// are 6): lower levels are faster, higher ones compress better.
    pub fn from_preset(level: u8) -> (r: Options)
        ensures
            is_preset(r, level),
            level == 0 ==> r.filter@ == Seq::<u8>::empty() && r.compression@ == seq![5u8],
            level == 1 ==> r.filter@ == Seq::<u8>::empty() && r.compression@ == seq![10u8],
            level == 2 ==> r.filter@ == seq![0u8, 1u8, 6u8, 7u8] && r.compression@ == seq![11u8],
            level == 3 ==> r.filter@ == seq![0u8, 7u8, 8u8, 9u8] && r.compression@ == seq![11u8] && r.brute_lines
                == 3 && r.brute_level == 1,
            level == 4 ==> r.filter@ == seq![0u8, 7u8, 8u8, 9u8] && r.compression@ == seq![12u8] && r.brute_lines
                == 4 && r.brute_level == 1,
            level == 5 ==> r.filter@ == seq![0u8, 1u8, 2u8, 5u8, 6u8, 7u8, 8u8, 9u8] && r.compression@ == seq![12u8]
                && r.brute_lines == 4 && r.brute_level == 4,
            level >= 6 ==> r.filter@ == seq![0u8, 1u8, 2u8, 3u8, 4u8, 5u8, 6u8, 7u8, 8u8, 9u8] && r.compression@
                == seq![12u8] && r.brute_lines == 8 && r.brute_level == 5,
    {
        let filter: Vec<u8> = if level <= 1 {
            vec![]
        } else if level == 2 {
            vec![0, 1, 6, 7]
        } else if level <= 4 {
            vec![0, 7, 8, 9]
        } else if level == 5 {
            vec![0, 1, 2, 5, 6, 7, 8, 9]
        } else {
            vec![0, 1, 2, 3, 4, 5, 6, 7, 8, 9]
        };
        let zc: u8 = if level == 0 {
            5
        } else if level == 1 {
            10
        } else if level <= 3 {
            11
        } else {
            12
        };
        let (brute_lines, brute_level): (usize, u8) = if level <= 3 {
            (3, 1)
        } else if level == 4 {
            (4, 1)
        } else if level == 5 {
            (4, 4)
        } else {
            (8, 5)
        };
        let r = Options {
            backup: false,
            out_file: String::new(),
            out_dir: None,
            stdout: false,
            fix_errors: false,
            pretend: false,
            recursive: false,
            clobber: true,
            create: true,
            force: false,
            preserve_attrs: false,
            verbosity: None,
            filter,
            interlace: None,
            compression: vec![zc],
            memory: vec![9],
            strategies: vec![],
            window: 15,
            bit_depth_reduction: true,
            color_type_reduction: true,
            palette_reduction: true,
            idat_recoding: true,
            strip: StripChunks::KeepAll,
            use_heuristics: true,
            max_decompressed_size: None,
            optimize_alpha: false,
            brute_lines,
            brute_level,
            deflater: Deflaters::Zlib,
            zopfli_iterations: 15,
        };
        proof {
            assert(r.filter@ =~= preset_filters(level));
            assert(r.compression@ =~= seq![preset_compression(level)]);
            assert(r.memory@ =~= seq![9u8]);
            assert(r.strategies@ =~= Seq::<u8>::empty());
            lemma_preset_table(r, level);
        }
        r
    }

    /// The options of the strongest preset.
    pub fn max_compression() -> (r: Options)
        ensures
            is_preset(r, 6),
    {
        Options::from_preset(6)
    }
}

impl Default for Options {
    /// The options of the default preset, level 2.
    fn default() -> (r: Options)
        ensures
            is_preset(r, 2),
    {
        Options::from_preset(2)
    }
}

} // verus!
