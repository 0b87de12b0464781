//! The configuration a run is given, independent of how it is supplied.

use vstd::prelude::*;
use crate::error::VisiogenError;

verus! {

/// Options shared by every command.
pub struct Args {
    /// Worker threads; 0 means every available core.
    pub threads: usize,
    /// Directory of off-target FASTA files, or of their indexes.
    pub off_target_directory: Option<String>,
    /// Most index hits a k-mer may have and still count as unique.
    pub max_hits: usize,
    /// Search directories recursively.
    pub recursive: bool,
    pub kmer_options: KmerOptions,
    pub command: Commands,
}

/// What a run does.
pub enum Commands {
    /// Design probes for named genes of an annotated assembly.
    Gff(GffArgs),
    /// Design probes for the core segments of a reference graph.
    Graph(GraphArgs),
    /// Build off-target indexes.
    Build(BuildArgs),
}

pub struct GffArgs {
    pub in_gff: String,
    pub in_fasta: String,
    /// Gene names to design probes for.
    pub genes: Vec<String>,
}

pub struct GraphArgs {
    pub gfa_path: String,
}

/// How probes are cut and filtered.
pub struct KmerOptions {
    pub kmer_size: usize,
    /// Base required at the junction position, if any.
    pub center_base: Option<char>,
    pub min_gc: usize,
    pub max_gc: usize,
    /// `true` keeps only probes lying wholly inside their region; `false`
    /// also keeps those with a single location inside it.
    pub allow_outside: bool,
    pub skip_gc: bool,
}

pub struct BuildArgs {
    /// Treat a k-mer and its reverse complement as one.
    pub canonical: bool,
}

/// The off-target directory that building indexes needs, or the error that
/// stops a build before any work when it is missing.
pub fn required_off_target_directory(args: &Args) -> (r: Result<String, VisiogenError>)
    ensures
        match args.off_target_directory {
            Some(d) => r is Ok && r->Ok_0@ == d@,
            None => r is Err && r->Err_0 is MissingArgument,
        },
{
    match &args.off_target_directory {
        Some(d) => Ok(d.clone()),
        None => {
            let msg = String::from_str("off_target_directory required for build command");
            Err(VisiogenError::MissingArgument(msg))
        },
    }
}

} // verus!
