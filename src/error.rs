//! Error kinds of the library.
use vstd::prelude::*;

verus! {

/// Errors raised while loading layer rules or serving tiles.
#[derive(Debug, Clone, PartialEq, Eq)]
pub enum Error {
    /// Two patterns of one layer name the same tag; holds the later pattern.
    DuplicatePattern(String),
    /// A zoom level that is not a number; holds its text.
    InvalidZoom(String),
    /// A zoom level above the maximum, or the lower end of a reversed range.
    InvalidZoomLevel(u32),
    /// A tile address that is malformed or outside its zoom level's grid.
    InvalidTileId,
    /// The composed tile holds no layer with a feature.
    TileEmpty,
    /// A data source other than `osm` or `json`.
    UnknownDataSource,
    /// A geometry type other than `point`, `linestring` or `polygon`.
    UnknownGeometryType,
    /// No layer group has the requested name.
    UnknownGroupName,
    /// The MVT encoder refused a geometry or a layer.
    MvtEncode,
}

/// Model of an error, with text as character sequences.
pub enum ErrorModel {
    DuplicatePattern(Seq<char>),
    InvalidZoom(Seq<char>),
    InvalidZoomLevel(u32),
    InvalidTileId,
    TileEmpty,
    UnknownDataSource,
    UnknownGeometryType,
    UnknownGroupName,
    MvtEncode,
}

impl View for Error {
    type V = ErrorModel;

    open spec fn view(&self) -> ErrorModel {
        match self {
            Error::DuplicatePattern(s) => ErrorModel::DuplicatePattern(s@),
            Error::InvalidZoom(s) => ErrorModel::InvalidZoom(s@),
            Error::InvalidZoomLevel(z) => ErrorModel::InvalidZoomLevel(*z),
            Error::InvalidTileId => ErrorModel::InvalidTileId,
            Error::TileEmpty => ErrorModel::TileEmpty,
            Error::UnknownDataSource => ErrorModel::UnknownDataSource,
            Error::UnknownGeometryType => ErrorModel::UnknownGeometryType,
            Error::UnknownGroupName => ErrorModel::UnknownGroupName,
            Error::MvtEncode => ErrorModel::MvtEncode,
        }
    }
}

/// Human-readable description of an error.
pub open spec fn message_spec(e: ErrorModel) -> Seq<char> {
    match e {
        ErrorModel::DuplicatePattern(v) => "Duplicate pattern: "@ + v,
        ErrorModel::InvalidZoom(v) => "Invalid zoom: "@ + v,
        ErrorModel::InvalidZoomLevel(_) => "Invalid zoom level"@,
        ErrorModel::InvalidTileId => "Invalid tile ID"@,
        ErrorModel::TileEmpty => "Tile empty"@,
        ErrorModel::UnknownDataSource => "Unknown data source"@,
        ErrorModel::UnknownGeometryType => "Unknown geometry type"@,
        ErrorModel::UnknownGroupName => "Unknown group name"@,
        ErrorModel::MvtEncode => "MVT encoding failed"@,
    }
}

impl Error {
    /// Human-readable description of the error.
    pub fn message(&self) -> (r: String)
        ensures
            r@ == message_spec(self@),
    {
        match self {
            Error::DuplicatePattern(v) => {
                let mut s = String::from_str("Duplicate pattern: ");
                s.append(v.as_str());
                s
            },
            Error::InvalidZoom(v) => {
                let mut s = String::from_str("Invalid zoom: ");
                s.append(v.as_str());
                s
            },
            Error::InvalidZoomLevel(_) => String::from_str("Invalid zoom level"),
            Error::InvalidTileId => String::from_str("Invalid tile ID"),
            Error::TileEmpty => String::from_str("Tile empty"),
            Error::UnknownDataSource => String::from_str("Unknown data source"),
            Error::UnknownGeometryType => String::from_str("Unknown geometry type"),
            Error::UnknownGroupName => String::from_str("Unknown group name"),
            Error::MvtEncode => String::from_str("MVT encoding failed"),
        }
    }
}

} // verus!
