//! Errors raised while reading or building an EPUB.

use crate::types::ErrorKind;
use vstd::prelude::*;

verus! {

#[derive(Debug)]
pub enum AppError {
    InvalidZip(String),
    InvalidMimetype(String),
    MissingContainer,
    MissingOpf(String),
    MalformedOpf(String),
    Io(String),
    InvalidChapter(String, String),
    MissingRequiredField(&'static str),
    DuplicateId(String),
    Panic(String),
    InvalidPageDirection(String),
    InvalidRenditionLayout(String),
    MissingViewport(String),
}

/// An error as plain values.
pub enum ErrorV {
    InvalidZip(Seq<char>),
    InvalidMimetype(Seq<char>),
    MissingContainer,
    MissingOpf(Seq<char>),
    MalformedOpf(Seq<char>),
    Io(Seq<char>),
    InvalidChapter(Seq<char>, Seq<char>),
    MissingRequiredField(Seq<char>),
    DuplicateId(Seq<char>),
    Panic(Seq<char>),
    InvalidPageDirection(Seq<char>),
    InvalidRenditionLayout(Seq<char>),
    MissingViewport(Seq<char>),
}

impl View for AppError {
    type V = ErrorV;

    open spec fn view(&self) -> ErrorV {
        match self {
            AppError::InvalidZip(m) => ErrorV::InvalidZip(m@),
            AppError::InvalidMimetype(m) => ErrorV::InvalidMimetype(m@),
            AppError::MissingContainer => ErrorV::MissingContainer,
            AppError::MissingOpf(p) => ErrorV::MissingOpf(p@),
            AppError::MalformedOpf(m) => ErrorV::MalformedOpf(m@),
            AppError::Io(m) => ErrorV::Io(m@),
            AppError::InvalidChapter(id, m) => ErrorV::InvalidChapter(id@, m@),
            AppError::MissingRequiredField(f) => ErrorV::MissingRequiredField(f@),
            AppError::DuplicateId(id) => ErrorV::DuplicateId(id@),
            AppError::Panic(m) => ErrorV::Panic(m@),
            AppError::InvalidPageDirection(d) => ErrorV::InvalidPageDirection(d@),
            AppError::InvalidRenditionLayout(l) => ErrorV::InvalidRenditionLayout(l@),
            AppError::MissingViewport(id) => ErrorV::MissingViewport(id@),
        }
    }
}

/// The kind of each error variant.
pub open spec fn kind_of(e: AppError) -> ErrorKind {
    match e {
        AppError::InvalidZip(_) => ErrorKind::InvalidZip,
        AppError::InvalidMimetype(_) => ErrorKind::InvalidMimetype,
        AppError::MissingContainer => ErrorKind::MissingContainer,
        AppError::MissingOpf(_) => ErrorKind::MissingOpf,
        AppError::MalformedOpf(_) => ErrorKind::MalformedOpf,
        AppError::Io(_) => ErrorKind::Io,
        AppError::InvalidChapter(_, _) => ErrorKind::InvalidChapter,
        AppError::MissingRequiredField(_) => ErrorKind::MissingRequiredField,
        AppError::DuplicateId(_) => ErrorKind::DuplicateId,
        AppError::Panic(_) => ErrorKind::Panic,
        AppError::InvalidPageDirection(_) => ErrorKind::InvalidPageDirection,
        AppError::InvalidRenditionLayout(_) => ErrorKind::InvalidRenditionLayout,
        AppError::MissingViewport(_) => ErrorKind::MissingViewport,
    }
}

impl AppError {
    pub fn kind(&self) -> (k: ErrorKind)
        ensures
            k == kind_of(*self),
    {
        match self {
            AppError::InvalidZip(_) => ErrorKind::InvalidZip,
            AppError::InvalidMimetype(_) => ErrorKind::InvalidMimetype,
            AppError::MissingContainer => ErrorKind::MissingContainer,
            AppError::MissingOpf(_) => ErrorKind::MissingOpf,
            AppError::MalformedOpf(_) => ErrorKind::MalformedOpf,
            AppError::Io(_) => ErrorKind::Io,
            AppError::InvalidChapter(_, _) => ErrorKind::InvalidChapter,
            AppError::MissingRequiredField(_) => ErrorKind::MissingRequiredField,
            AppError::DuplicateId(_) => ErrorKind::DuplicateId,
            AppError::Panic(_) => ErrorKind::Panic,
            AppError::InvalidPageDirection(_) => ErrorKind::InvalidPageDirection,
            AppError::InvalidRenditionLayout(_) => ErrorKind::InvalidRenditionLayout,
            AppError::MissingViewport(_) => ErrorKind::MissingViewport,
        }
    }
}

} // verus!
