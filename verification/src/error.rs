//! The one error type of the library.

use std::borrow::Cow;
use vstd::prelude::*;

verus! {

/// `std::io::Error`: a failure of the operating system while reading or
/// writing. It is carried through as it came, and nothing is claimed of it.
#[verifier::external_type_specification]
#[verifier::external_body]
pub struct ExIoError(std::io::Error);

/// What went wrong, with the reason in words where there is one.
#[derive(Debug)]
pub enum LavaTorrentError {
    /// The bytes are not bencode.
    MalformedBencode(Cow<'static, str>),
    /// The bencode is not a torrent.
    MalformedTorrent(Cow<'static, str>),
    /// The caller asked for something that cannot be done.
    InvalidArgument(Cow<'static, str>),
    /// A file is too large to be read.
    FileTooLarge(Cow<'static, str>),
    /// Reading or writing failed.
    IO(std::io::Error),
    /// A build was canceled before it finished.
    BuildCanceled,
}

/// What an error says: its kind and the characters of its reason.
pub enum Failure {
    /// The bytes are not bencode, for this reason.
    MalformedBencode(Seq<char>),
    /// The bencode is not a torrent, for this reason.
    MalformedTorrent(Seq<char>),
    /// The caller asked for something that cannot be done, for this reason.
    InvalidArgument(Seq<char>),
    /// A file is too large to be read, for this reason.
    FileTooLarge(Seq<char>),
    /// Reading or writing failed.
    IO,
    /// A build was canceled before it finished.
    BuildCanceled,
}

impl View for LavaTorrentError {
    type V = Failure;

    open spec fn view(&self) -> Failure {
        match self {
            LavaTorrentError::MalformedBencode(m) => Failure::MalformedBencode(m@),
            LavaTorrentError::MalformedTorrent(m) => Failure::MalformedTorrent(m@),
            LavaTorrentError::InvalidArgument(m) => Failure::InvalidArgument(m@),
            LavaTorrentError::FileTooLarge(m) => Failure::FileTooLarge(m@),
            LavaTorrentError::IO(_) => Failure::IO,
            LavaTorrentError::BuildCanceled => Failure::BuildCanceled,
        }
    }
}

impl LavaTorrentError {
    /// The error that says why bencode is no torrent.
    pub fn malformed_torrent(reason: &'static str) -> (res: Self)
        ensures
            res@ == Failure::MalformedTorrent(reason@),
    {
        LavaTorrentError::MalformedTorrent(Cow::Borrowed(reason))
    }

    /// The error that says why the caller asks for what cannot be done.
    pub fn invalid_argument(reason: &'static str) -> (res: Self)
        ensures
            res@ == Failure::InvalidArgument(reason@),
    {
        LavaTorrentError::InvalidArgument(Cow::Borrowed(reason))
    }
}

} // verus!
