//! Plain data carried between the command-line front end and the cipher
//! engine: which files to transform, in which direction, how chatty to be,
//! where the password comes from, and how wide a progress bar to draw.
//!
//! Reading the command line, the password and the files is the front end's
//! business; these types only hold its results.
use vstd::prelude::*;

verus! {

/// The validated command-line options.
pub struct Opt {
    /// Paths of the files to transform, in the order given.
    pub files: Vec<String>,
    /// Whether to encrypt or to decrypt.
    pub crypt_mode: CryptMode,
    /// How much to report on the error stream.
    pub verbose: Verbose,
    /// Where the password comes from.
    pub password: Password,
    /// Width of the progress bar, in cells.
    pub progress_bar_length: u16,
}

/// The direction of the transform.
#[derive(Clone, Copy, PartialEq, Eq, Structural)]
pub enum CryptMode {
    Encrypt,
    Decrypt,
}

/// How much the front end reports while working.
#[derive(Clone, Copy, PartialEq, Eq, Structural)]
pub enum Verbose {
    Quiet,
    Verbose,
    VeryVerbose,
}

/// Where the password is read from.
pub enum Password {
    /// The whole named file is the password.
    File(String),
    /// Everything on standard input, up to its end, is the password.
    FullStdin,
    /// One line of standard input, without its newline, is the password.
    StdinOneLine,
}

} // verus!
