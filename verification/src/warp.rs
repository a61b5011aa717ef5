//! How the reprojection is told which transformation to use.

use vstd::prelude::*;
use vstd::string::StringExecFns;

verus! {

/// The transformation from the source's coordinates to Web Mercator:
/// either a coordinate operation pipeline, or the source and the target
/// reference system as WKT.
pub enum Transform {
    Pipeline(String),
    Srs(String, String),
}

/// The transformer option that carries a pipeline.
pub open spec fn pipeline_option(pipeline: Seq<char>) -> Seq<char> {
    "COORDINATE_OPERATION="@ + pipeline
}

impl Transform {
    /// The transformation for the given options: the pipeline where one is
    /// given, the two reference systems otherwise.
    pub fn select(pipeline: Option<String>, source_wkt: String, target_wkt: String) -> (transform:
        Transform)
        ensures
            transform == match pipeline {
                Some(p) => Transform::Pipeline(p),
                None => Transform::Srs(source_wkt, target_wkt),
            },
    {
        match pipeline {
            Some(p) => Transform::Pipeline(p),
            None => Transform::Srs(source_wkt, target_wkt),
        }
    }

    /// The option string handed to the transformer for a pipeline; a pair
    /// of reference systems needs none.
    pub fn transformer_option(&self) -> (option: Option<String>)
        ensures
            match self {
                Transform::Pipeline(p) => option matches Some(text) && text@ == pipeline_option(p@),
                Transform::Srs(_, _) => option is None,
            },
    {
        match self {
            Transform::Pipeline(p) => {
                let mut text = String::from_str("COORDINATE_OPERATION=");
                text.append(p.as_str());
                Some(text)
            },
            Transform::Srs(_, _) => None,
        }
    }
}

} // verus!
