//! Counting fixed-length substrings (k-mers) of nucleotide sequences read
//! from FASTA or FASTQ text, optionally gzip-compressed, with optional
//! counting of each k-mer's reverse complement.

pub mod nucleotide;
pub mod table;
pub mod counting;
pub mod source;
