//! Why a mapping is not valid for a dependency edge.
use vstd::prelude::*;
use vstd::string::*;
use crate::text::{
    join_texts, joined, quoted_list, quoted_list_text, same_text, say3, say4, say5, say7, texts,
};

verus! {

/// Identifies which side of a dependency edge an error refers to.
#[derive(Clone, Copy, PartialEq, Eq, Structural, Debug)]
pub enum Side {
    Downstream,
    Upstream,
}

/// The name of a side.
pub open spec fn side_name(s: Side) -> Seq<char> {
    match s {
        Side::Downstream => "downstream"@,
        Side::Upstream => "upstream"@,
    }
}

impl Side {
    /// The name of the side.
    pub fn text(self) -> (r: &'static str)
        ensures
            r@ == side_name(self),
    {
        match self {
            Side::Downstream => "downstream",
            Side::Upstream => "upstream",
        }
    }
}

/// A structural problem with a Multi or MultiToSingle dimension mapping.
#[derive(Debug)]
pub enum DimensionErrorKind {
    BothSidesMulti,
    NeitherSideMulti { downstream: String, upstream: String },
    /// `Multi`: an upstream dimension referenced by the mapping doesn't exist.
    MultiUpstreamDimMissing { dim: String },
    /// `Multi`: a downstream dimension targeted by the mapping doesn't exist.
    MultiDownstreamDimMissing { dim: String },
    /// `MultiToSingle`: the named dimension doesn't exist on the Multi side.
    MultiToSingleDimMissing { dim: String, side: Side, available: Vec<String> },
    MissingMapping { dim: String },
    TargetedTwice { dim: String },
    NotCovered { dim: String },
}

/// What a structural problem says.
pub enum DimErrView {
    BothSidesMulti,
    NeitherSideMulti(Seq<char>, Seq<char>),
    MultiUpstreamDimMissing(Seq<char>),
    MultiDownstreamDimMissing(Seq<char>),
    MultiToSingleDimMissing(Seq<char>, Side, Seq<Seq<char>>),
    MissingMapping(Seq<char>),
    TargetedTwice(Seq<char>),
    NotCovered(Seq<char>),
}

impl View for DimensionErrorKind {
    type V = DimErrView;

    open spec fn view(&self) -> DimErrView {
        match *self {
            DimensionErrorKind::BothSidesMulti => DimErrView::BothSidesMulti,
            DimensionErrorKind::NeitherSideMulti {
                downstream,
                upstream,
            } => DimErrView::NeitherSideMulti(downstream@, upstream@),
            DimensionErrorKind::MultiUpstreamDimMissing {
                dim,
            } => DimErrView::MultiUpstreamDimMissing(dim@),
            DimensionErrorKind::MultiDownstreamDimMissing {
                dim,
            } => DimErrView::MultiDownstreamDimMissing(dim@),
            DimensionErrorKind::MultiToSingleDimMissing {
                dim,
                side,
                available,
            } => DimErrView::MultiToSingleDimMissing(dim@, side, texts(available@)),
            DimensionErrorKind::MissingMapping { dim } => DimErrView::MissingMapping(dim@),
            DimensionErrorKind::TargetedTwice { dim } => DimErrView::TargetedTwice(dim@),
            DimensionErrorKind::NotCovered { dim } => DimErrView::NotCovered(dim@),
        }
    }
}

/// The message of a structural problem.
pub open spec fn dim_message(e: DimErrView) -> Seq<char> {
    match e {
        DimErrView::BothSidesMulti =>
            "MultiToSingle mapping requires exactly one side to be Multi, but both are Multi"@,
        DimErrView::NeitherSideMulti(down, up) =>
            "MultiToSingle mapping requires one side to be Multi, but downstream is "@ + down
            + " and upstream is "@ + up,
        DimErrView::MultiUpstreamDimMissing(dim) =>
            "Multi mapping references upstream dimension '"@ + dim + "' which does not exist"@,
        DimErrView::MultiDownstreamDimMissing(dim) =>
            "Multi mapping targets downstream dimension '"@ + dim + "' which does not exist"@,
        DimErrView::MultiToSingleDimMissing(dim, side, available) =>
            "MultiToSingle dimension '"@ + dim + "' does not exist in the "@ + side_name(side)
            + " Multi partitions (available: "@ + joined(available, ", "@) + ")"@,
        DimErrView::MissingMapping(dim) => "Multi mapping is missing upstream dimension '"@ + dim
            + "'"@,
        DimErrView::TargetedTwice(dim) => "Multi mapping targets downstream dimension '"@ + dim
            + "' more than once"@,
        DimErrView::NotCovered(dim) => "Multi mapping does not cover downstream dimension '"@
            + dim + "'"@,
    }
}

impl DimensionErrorKind {
    /// The message of the problem.
    pub fn message(&self) -> (r: String)
        ensures
            r@ == dim_message(self@),
    {
        match self {
            DimensionErrorKind::BothSidesMulti =>
                "MultiToSingle mapping requires exactly one side to be Multi, but both are Multi".to_owned(),
            DimensionErrorKind::NeitherSideMulti { downstream, upstream } => say4(
                "MultiToSingle mapping requires one side to be Multi, but downstream is ",
                downstream.as_str(),
                " and upstream is ",
                upstream.as_str(),
            ),
            DimensionErrorKind::MultiUpstreamDimMissing { dim } => say3(
                "Multi mapping references upstream dimension '",
                dim.as_str(),
                "' which does not exist",
            ),
            DimensionErrorKind::MultiDownstreamDimMissing { dim } => say3(
                "Multi mapping targets downstream dimension '",
                dim.as_str(),
                "' which does not exist",
            ),
            DimensionErrorKind::MultiToSingleDimMissing { dim, side, available } => say7(
                "MultiToSingle dimension '",
                dim.as_str(),
                "' does not exist in the ",
                side.text(),
                " Multi partitions (available: ",
                join_texts(available, ", ").as_str(),
                ")",
            ),
            DimensionErrorKind::MissingMapping { dim } => say3(
                "Multi mapping is missing upstream dimension '",
                dim.as_str(),
                "'",
            ),
            DimensionErrorKind::TargetedTwice { dim } => say3(
                "Multi mapping targets downstream dimension '",
                dim.as_str(),
                "' more than once",
            ),
            DimensionErrorKind::NotCovered { dim } => say3(
                "Multi mapping does not cover downstream dimension '",
                dim.as_str(),
                "'",
            ),
        }
    }
}

/// Why a `PartitionMapping` is not valid for a given dependency edge.
#[derive(Debug)]
pub enum MappingValidationError {
    /// Mapping requires both definitions to be the same partition type.
    DefinitionTypeMismatch { mapping: &'static str, downstream: String, upstream: String },
    /// Mapping requires a specific partition type on one side.
    RequiredDefinitionType {
        mapping: &'static str,
        side: Side,
        expected: &'static str,
        found: String,
    },
    /// A partition key referenced by the mapping is not valid for the named side.
    KeyNotInDefinition { key: String, side: Side, mapping: &'static str },
    /// The mapping variant is not allowed for this shape of edge.
    IncompatibleMappingForShape {
        mapping: &'static str,
        downstream_partitioned: bool,
        upstream_partitioned: bool,
    },
    /// Unpartitioned downstream depending on partitioned upstream requires an
    /// explicit mapping.
    ExplicitMappingRequired,
    /// A non-Identity mapping was supplied but neither side is partitioned.
    MappingOnUnpartitionedPair { mapping: &'static str },
    /// Subset mapping requires upstream keys to be a subset of downstream.
    UpstreamKeysNotSubset { extras: Vec<String> },
    /// Structural problem with a Multi or MultiToSingle dimension mapping.
    Dimension(DimensionErrorKind),
    /// An inner per-dimension mapping inside Multi/MultiToSingle failed.
    InDimension { dim: String, source: Box<MappingValidationError> },
    /// An underlying partition definition operation failed.
    DefinitionError(String),
}

/// What a validation error says.
pub enum MapErrView {
    DefinitionTypeMismatch(Seq<char>, Seq<char>, Seq<char>),
    RequiredDefinitionType(Seq<char>, Side, Seq<char>, Seq<char>),
    KeyNotInDefinition(Seq<char>, Side, Seq<char>),
    IncompatibleMappingForShape(Seq<char>, bool, bool),
    ExplicitMappingRequired,
    MappingOnUnpartitionedPair(Seq<char>),
    UpstreamKeysNotSubset(Seq<Seq<char>>),
    Dimension(DimErrView),
    InDimension(Seq<char>, Box<MapErrView>),
    DefinitionError(Seq<char>),
}

/// What a validation error says.
pub open spec fn map_err_view(e: MappingValidationError) -> MapErrView
    decreases e,
{
    match e {
        MappingValidationError::DefinitionTypeMismatch {
            mapping,
            downstream,
            upstream,
        } => MapErrView::DefinitionTypeMismatch(mapping@, downstream@, upstream@),
        MappingValidationError::RequiredDefinitionType {
            mapping,
            side,
            expected,
            found,
        } => MapErrView::RequiredDefinitionType(mapping@, side, expected@, found@),
        MappingValidationError::KeyNotInDefinition {
            key,
            side,
            mapping,
        } => MapErrView::KeyNotInDefinition(key@, side, mapping@),
        MappingValidationError::IncompatibleMappingForShape {
            mapping,
            downstream_partitioned,
            upstream_partitioned,
        } => MapErrView::IncompatibleMappingForShape(
            mapping@,
            downstream_partitioned,
            upstream_partitioned,
        ),
        MappingValidationError::ExplicitMappingRequired => MapErrView::ExplicitMappingRequired,
        MappingValidationError::MappingOnUnpartitionedPair {
            mapping,
        } => MapErrView::MappingOnUnpartitionedPair(mapping@),
        MappingValidationError::UpstreamKeysNotSubset {
            extras,
        } => MapErrView::UpstreamKeysNotSubset(texts(extras@)),
        MappingValidationError::Dimension(d) => MapErrView::Dimension(d@),
        MappingValidationError::InDimension { dim, source } => MapErrView::InDimension(
            dim@,
            Box::new(map_err_view(*source)),
        ),
        MappingValidationError::DefinitionError(s) => MapErrView::DefinitionError(s@),
    }
}

impl View for MappingValidationError {
    type V = MapErrView;

    open spec fn view(&self) -> MapErrView {
        map_err_view(*self)
    }
}

/// The message of a key that the named side does not have.
pub open spec fn foreign_key_message(key: Seq<char>, side: Side, mapping: Seq<char>) -> Seq<char> {
    if mapping == "Static"@ && side == Side::Downstream {
        "Static partition mapping key '"@ + key + "' is not a valid partition key for this asset"@
    } else if mapping == "Static"@ && side == Side::Upstream {
        "Static mapping target '"@ + key + "' is not a valid partition key for upstream"@
    } else if mapping == "SpecificPartitions"@ && side == Side::Upstream {
        "SpecificPartitions key '"@ + key + "' is not a valid partition key for upstream"@
    } else if mapping == "ForKeys"@ && side == Side::Downstream {
        "ForKeys key "@ + key + " is not a valid downstream partition key"@
    } else {
        mapping + " mapping references key '"@ + key + "' which is not a valid partition key for "@
            + side_name(side)
    }
}

/// The message of a mapping that does not fit the shape of its edge.
pub open spec fn shape_message(mapping: Seq<char>, down: bool, up: bool) -> Seq<char> {
    if down && up && mapping == "SpecificPartitions"@ {
        "SpecificPartitions mapping is only valid when downstream is unpartitioned. Use Static, Identity, or AllPartitions for partitioned-to-partitioned dependencies"@
    } else if down && up && mapping == "ForKeys"@ {
        "ForKeys mapping is only valid when upstream is unpartitioned"@
    } else if down && !up {
        "only AllPartitions, ForKeys, or no mapping is valid when upstream has no partitions"@
    } else if !down && up {
        "only AllPartitions or SpecificPartitions mapping is valid"@
    } else {
        mapping + " mapping is not valid for this dependency shape"@
    }
}

/// The message of a validation error.
pub open spec fn map_message(e: MapErrView) -> Seq<char>
    decreases e,
{
    match e {
        MapErrView::DefinitionTypeMismatch(mapping, down, up) => mapping
            + " mapping requires same partition type, but downstream is "@ + down
            + " and upstream is "@ + up,
        MapErrView::RequiredDefinitionType(mapping, side, expected, found) => mapping
            + " mapping requires "@ + expected + " partitions on "@ + side_name(side)
            + ", but found "@ + found,
        MapErrView::KeyNotInDefinition(key, side, mapping) => foreign_key_message(
            key,
            side,
            mapping,
        ),
        MapErrView::IncompatibleMappingForShape(mapping, down, up) => shape_message(
            mapping,
            down,
            up,
        ),
        MapErrView::ExplicitMappingRequired =>
            "a partition_mapping (e.g. AllPartitions or SpecificPartitions) is required"@,
        MapErrView::MappingOnUnpartitionedPair(_) =>
            "partition_mapping specified but neither asset has partitions"@,
        MapErrView::UpstreamKeysNotSubset(extras) =>
            "Subset mapping requires upstream keys to be a subset of downstream, but upstream has extra keys: "@
            + quoted_list(extras),
        MapErrView::Dimension(d) => dim_message(d),
        MapErrView::InDimension(dim, source) => "in dimension '"@ + dim + "': "@ + map_message(
            *source,
        ),
        MapErrView::DefinitionError(s) => s,
    }
}

fn foreign_key_text(key: &str, side: Side, mapping: &str) -> (r: String)
    ensures
        r@ == foreign_key_message(key@, side, mapping@),
{
    if same_text(mapping, "Static") && side == Side::Downstream {
        say3(
            "Static partition mapping key '",
            key,
            "' is not a valid partition key for this asset",
        )
    } else if same_text(mapping, "Static") && side == Side::Upstream {
        say3("Static mapping target '", key, "' is not a valid partition key for upstream")
    } else if same_text(mapping, "SpecificPartitions") && side == Side::Upstream {
        say3("SpecificPartitions key '", key, "' is not a valid partition key for upstream")
    } else if same_text(mapping, "ForKeys") && side == Side::Downstream {
        say3("ForKeys key ", key, " is not a valid downstream partition key")
    } else {
        say5(
            mapping,
            " mapping references key '",
            key,
            "' which is not a valid partition key for ",
            side.text(),
        )
    }
}

fn shape_text(mapping: &str, down: bool, up: bool) -> (r: String)
    ensures
        r@ == shape_message(mapping@, down, up),
{
    if down && up && same_text(mapping, "SpecificPartitions") {
        "SpecificPartitions mapping is only valid when downstream is unpartitioned. Use Static, Identity, or AllPartitions for partitioned-to-partitioned dependencies".to_owned()
    } else if down && up && same_text(mapping, "ForKeys") {
        "ForKeys mapping is only valid when upstream is unpartitioned".to_owned()
    } else if down && !up {
        "only AllPartitions, ForKeys, or no mapping is valid when upstream has no partitions".to_owned()
    } else if !down && up {
        "only AllPartitions or SpecificPartitions mapping is valid".to_owned()
    } else {
        let mut s = mapping.to_owned();
        s.append(" mapping is not valid for this dependency shape");
        s
    }
}

impl MappingValidationError {
    /// The message of the error.
    pub fn message(&self) -> (r: String)
        ensures
            r@ == map_message(self@),
        decreases self,
    {
        match self {
            MappingValidationError::DefinitionTypeMismatch { mapping, downstream, upstream } => say5(
                mapping,
                " mapping requires same partition type, but downstream is ",
                downstream.as_str(),
                " and upstream is ",
                upstream.as_str(),
            ),
            MappingValidationError::RequiredDefinitionType { mapping, side, expected, found } => say7(
                mapping,
                " mapping requires ",
                expected,
                " partitions on ",
                side.text(),
                ", but found ",
                found.as_str(),
            ),
            MappingValidationError::KeyNotInDefinition { key, side, mapping } => foreign_key_text(
                key.as_str(),
                *side,
                mapping,
            ),
            MappingValidationError::IncompatibleMappingForShape {
                mapping,
                downstream_partitioned,
                upstream_partitioned,
            } => shape_text(mapping, *downstream_partitioned, *upstream_partitioned),
            MappingValidationError::ExplicitMappingRequired =>
                "a partition_mapping (e.g. AllPartitions or SpecificPartitions) is required".to_owned(),
            MappingValidationError::MappingOnUnpartitionedPair { .. } =>
                "partition_mapping specified but neither asset has partitions".to_owned(),
            MappingValidationError::UpstreamKeysNotSubset { extras } => {
                let mut s =
                    "Subset mapping requires upstream keys to be a subset of downstream, but upstream has extra keys: ".to_owned();
                s.append(quoted_list_text(extras).as_str());
                s
            },
            MappingValidationError::Dimension(d) => d.message(),
            MappingValidationError::InDimension { dim, source } => say4(
                "in dimension '",
                dim.as_str(),
                "': ",
                source.message().as_str(),
            ),
            MappingValidationError::DefinitionError(s) => s.clone(),
        }
    }
}

} // verus!
