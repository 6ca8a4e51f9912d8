use quote::Tokens;
use vstd::prelude::*;

use crate::convert::opt_text;
use crate::device::{nodes, Defaults, NodeModel, RegisterCluster};
use crate::error::{Error, ErrorModel};
use crate::expand::{expand, expand_fits, expansion};
use crate::field::{block_fields, BlockFieldModel, RegisterBlockField};
use crate::names::Conventions;
use crate::regions::{
    added, can_add, joined_descriptions, prefix_of, region_models, FieldRegions, Region,
    RegionModel,
};
use crate::text::{decimal, numeral, pad_zeros, write_numeral, zero_padded};
use crate::tokens::{
    append, field_text, field_tokens, glued, put_together, quoted, spaced, string_literal, strs,
    tokens_text, usize_literal,
};

verus! {

/// The regions that fields make when they are added one after the other.
pub open spec fn regions_of(fields: Seq<BlockFieldModel>) -> Seq<RegionModel>
    decreases fields.len(),
{
    if fields.len() == 0 {
        Seq::empty()
    } else {
        added(regions_of(fields.drop_last()), fields.last())
    }
}

/// Whether each of the fields can be added to the regions of those before it.
pub open spec fn regions_fit(fields: Seq<BlockFieldModel>) -> bool
    decreases fields.len(),
{
    fields.len() > 0 ==> {
        &&& regions_fit(fields.drop_last())
        &&& can_add(regions_of(fields.drop_last()), fields.last())
    }
}

/// Whether no region starts before the one in front of it ends.
pub open spec fn gaps_fit(regions: Seq<RegionModel>) -> bool {
    forall|i: int| 0 < i < regions.len() ==> regions[i - 1].end <= (#[trigger] regions[i]).offset
}

/// The documentation of a field: its offset in hexadecimal, and its description.
pub open spec fn field_comment<N: Conventions>(style: N, f: BlockFieldModel) -> Seq<char> {
    "0x"@ + zero_padded(numeral(f.offset as nat, 16), 2) + " - "@ + style.respaced(f.description)
}

/// A field with its documentation.
pub open spec fn documented_field<N: Conventions>(style: N, f: BlockFieldModel) -> Seq<char> {
    spaced(seq!["# [ doc ="@, quoted(field_comment(style, f)), "]"@, field_text(f.field), ","@])
}

/// The fields of a region, each with its documentation.
pub open spec fn region_fields<N: Conventions>(
    style: N,
    fields: Seq<BlockFieldModel>,
) -> Seq<char>
    decreases fields.len(),
{
    if fields.len() == 0 {
        Seq::empty()
    } else {
        glued(
            region_fields(style, fields.drop_last()),
            documented_field(style, fields.last()),
        )
    }
}

/// The number of bytes between region `i` and the one before it.
pub open spec fn gap(regions: Seq<RegionModel>, i: int) -> int {
    if i > 0 {
        regions[i].offset - regions[i - 1].end
    } else {
        0
    }
}

/// The bytes between region `i` and the one before it, as a field; nothing where there are none.
pub open spec fn padding(regions: Seq<RegionModel>, i: int) -> Seq<char> {
    if gap(regions, i) != 0 {
        spaced(
            seq![
                "_reserved"@ + decimal(i as nat),
                ": [ u8 ;"@,
                decimal(gap(regions, i) as nat) + "usize"@,
                "] ,"@,
            ],
        )
    } else {
        Seq::empty()
    }
}

/// The name of the field for the union of region `i`: what the names of its fields have in common,
/// or the number of the region.
pub open spec fn union_name(region: RegionModel, i: int) -> Seq<char> {
    match prefix_of(region.fields) {
        Some(prefix) => prefix,
        None => "u"@ + decimal(i as nat),
    }
}

/// The name of the type for the union of region `i`.
pub open spec fn union_type(region: RegionModel, i: int) -> Seq<char> {
    match prefix_of(region.fields) {
        Some(prefix) => prefix + "_union"@,
        None => "u"@ + decimal(i as nat),
    }
}

/// Whether the block is a union itself: all of its fields, and more than one, make one region.
pub open spec fn is_union(regions: Seq<RegionModel>) -> bool {
    regions.len() == 1 && regions[0].fields.len() > 1
}

/// Whether a region becomes a union within the block.
pub open spec fn needs_union(regions: Seq<RegionModel>, i: int) -> bool {
    regions[i].fields.len() > 1 && !is_union(regions)
}

/// The field of the block for the union of region `i`.
pub open spec fn union_field(regions: Seq<RegionModel>, i: int) -> Seq<char> {
    spaced(
        seq![
            "# [ doc ="@,
            quoted(joined_descriptions(regions[i].fields)),
            "] pub"@,
            union_name(regions[i], i),
            ":"@,
            union_type(regions[i], i),
        ],
    )
}

/// The type for the union of region `i`.
pub open spec fn union_def<N: Conventions>(
    style: N,
    regions: Seq<RegionModel>,
    i: int,
) -> Seq<char> {
    spaced(
        seq![
            "# [ doc ="@,
            quoted(joined_descriptions(regions[i].fields)),
            "] # [ repr ( C ) ] pub union"@,
            union_type(regions[i], i),
            "{"@,
            region_fields(style, regions[i].fields),
            "}"@,
        ],
    )
}

/// The fields of the block for its first `k` regions.
pub open spec fn block_body<N: Conventions>(
    style: N,
    regions: Seq<RegionModel>,
    k: int,
) -> Seq<char>
    decreases k,
{
    if k <= 0 {
        Seq::empty()
    } else {
        let padded = glued(block_body(style, regions, k - 1), padding(regions, k - 1));
        if needs_union(regions, k - 1) {
            glued(glued(padded, union_field(regions, k - 1)), ","@)
        } else {
            glued(padded, region_fields(style, regions[k - 1].fields))
        }
    }
}

/// The union types that the first `k` regions need.
pub open spec fn helper_types<N: Conventions>(
    style: N,
    regions: Seq<RegionModel>,
    k: int,
) -> Seq<char>
    decreases k,
{
    if k <= 0 {
        Seq::empty()
    } else {
        let before = helper_types(style, regions, k - 1);
        if needs_union(regions, k - 1) {
            glued(before, union_def(style, regions, k - 1))
        } else {
            before
        }
    }
}

/// A block with these regions.
pub open spec fn block_def<N: Conventions>(
    style: N,
    regions: Seq<RegionModel>,
    name: Option<Seq<char>>,
) -> Seq<char> {
    let kind = if is_union(regions) {
        "union"@
    } else {
        "struct"@
    };
    let name = match name {
        Some(name) => style.upper(name),
        None => "RegisterBlock"@,
    };
    spaced(
        seq![
            "# [ doc = r\" Register block\" ] # [ repr ( C ) ] pub"@,
            kind,
            name,
            "{"@,
            block_body(style, regions, regions.len() as int),
            "}"@,
            helper_types(style, regions, regions.len() as int),
        ],
    )
}

/// The block for a list of nodes.
#[verifier::opaque]
pub open spec fn block_text<N: Conventions>(
    style: N,
    list: Seq<NodeModel>,
    defs: Defaults,
    name: Option<Seq<char>>,
) -> Result<Seq<char>, ErrorModel> {
    match expansion(style, list, defs, name) {
        Ok(fields) => Ok(block_def(style, regions_of(fields), name)),
        Err(e) => Err(e),
    }
}

/// Whether the layout of a block stays within 32 bits, and none of its fields gets in the way of
/// another by having no bytes.
#[verifier::opaque]
pub open spec fn block_fits<N: Conventions>(
    style: N,
    list: Seq<NodeModel>,
    defs: Defaults,
    name: Option<Seq<char>>,
) -> bool {
    &&& expand_fits(style, list, defs, name)
    &&& expansion(style, list, defs, name) matches Ok(fields) ==> regions_fit(fields) && gaps_fit(
        regions_of(fields),
    )
}

/// The text of tokens, or the error in their place.
pub open spec fn tokens_result(r: Result<Tokens, Error>) -> Result<Seq<char>, ErrorModel> {
    match r {
        Ok(tokens) => Ok(tokens_text(tokens)),
        Err(e) => Err(e.model()),
    }
}

fn write_documented_field<N: Conventions>(style: &N, f: &RegisterBlockField) -> (t: Tokens)
    ensures
        tokens_text(t) == documented_field(*style, f.model()),
{
    let offset = write_numeral(f.offset as u64, 16);
    let comment = "0x".to_owned().concat(pad_zeros(offset.as_str(), 2).as_str()).concat(
        " - ",
    ).concat(style.respace(f.description.as_str()).as_str());
    let literal = string_literal(comment.as_str());
    let field = field_tokens(&f.field);
    let pieces: Vec<&str> = vec!["# [ doc =", literal.as_str(), "]", field.as_str(), ","];
    assert(strs(pieces@) =~= seq![
        "# [ doc ="@,
        quoted(field_comment(*style, f.model())),
        "]"@,
        field_text(f.model().field),
        ","@,
    ]);
    put_together(&pieces)
}

fn write_region_fields<N: Conventions>(style: &N, region: &Region) -> (t: Tokens)
    ensures
        tokens_text(t) == region_fields(*style, region.model().fields),
{
    let ghost fields = region.model().fields;
    let mut t = Tokens::new();
    let mut i: usize = 0;
    while i < region.fields.len()
        invariant
            i <= region.fields@.len(),
            fields == block_fields(region.fields@),
            tokens_text(t) == region_fields(*style, fields.take(i as int)),
        decreases region.fields@.len() - i,
    {
        let one = write_documented_field(style, &region.fields[i]);
        append(&mut t, one.as_str());
        assert(fields.take(i + 1).drop_last() =~= fields.take(i as int));
        assert(fields.take(i + 1).last() == region.fields@[i as int].model());
        i += 1;
    }
    assert(fields.take(i as int) =~= fields);
    t
}

fn write_padding(i: usize, pad: u32) -> (t: Tokens)
    ensures
        tokens_text(t) == spaced(
            seq![
                "_reserved"@ + decimal(i as nat),
                ": [ u8 ;"@,
                decimal(pad as nat) + "usize"@,
                "] ,"@,
            ],
        ),
{
    let number = write_numeral(i as u64, 10);
    let name = "_reserved".to_owned().concat(number.as_str());
    let size = usize_literal(pad as usize);
    let pieces: Vec<&str> = vec![name.as_str(), ": [ u8 ;", size.as_str(), "] ,"];
    assert(strs(pieces@) =~= seq![
        "_reserved"@ + decimal(i as nat),
        ": [ u8 ;"@,
        decimal(pad as nat) + "usize"@,
        "] ,"@,
    ]);
    put_together(&pieces)
}

/// The names of the type and of the field for the union of a region.
fn name_union(region: &Region, i: usize) -> (r: (String, String))
    requires
        region.fields@.len() > 0,
    ensures
        r.0@ == union_type(region.model(), i as int),
        r.1@ == union_name(region.model(), i as int),
{
    match region.common_prefix() {
        Some(prefix) => (prefix.clone().concat("_union"), prefix),
        // If we can't find a common prefix for the name, fall back to the region index as a
        // unique-within-this-block identifier counter.
        None => {
            let number = write_numeral(i as u64, 10);
            let ident = "u".to_owned().concat(number.as_str());
            (ident.clone(), ident)
        },
    }
}

fn write_union_field(description: &str, name: &str, union_ty: &str) -> (t: Tokens)
    ensures
        tokens_text(t) == spaced(
            seq!["# [ doc ="@, quoted(description@), "] pub"@, name@, ":"@, union_ty@],
        ),
{
    let literal = string_literal(description);
    let pieces: Vec<&str> = vec!["# [ doc =", literal.as_str(), "] pub", name, ":", union_ty];
    assert(strs(pieces@) =~= seq![
        "# [ doc ="@,
        quoted(description@),
        "] pub"@,
        name@,
        ":"@,
        union_ty@,
    ]);
    put_together(&pieces)
}

fn write_union_def(description: &str, union_ty: &str, fields: &str) -> (t: Tokens)
    ensures
        tokens_text(t) == spaced(
            seq![
                "# [ doc ="@,
                quoted(description@),
                "] # [ repr ( C ) ] pub union"@,
                union_ty@,
                "{"@,
                fields@,
                "}"@,
            ],
        ),
{
    let literal = string_literal(description);
    let pieces: Vec<&str> = vec![
        "# [ doc =",
        literal.as_str(),
        "] # [ repr ( C ) ] pub union",
        union_ty,
        "{",
        fields,
        "}",
    ];
    assert(strs(pieces@) =~= seq![
        "# [ doc ="@,
        quoted(description@),
        "] # [ repr ( C ) ] pub union"@,
        union_ty@,
        "{"@,
        fields@,
        "}"@,
    ]);
    put_together(&pieces)
}

fn write_block(kind: &str, name: &str, fields: &str, helpers: &str) -> (t: Tokens)
    ensures
        tokens_text(t) == spaced(
            seq![
                "# [ doc = r\" Register block\" ] # [ repr ( C ) ] pub"@,
                kind@,
                name@,
                "{"@,
                fields@,
                "}"@,
                helpers@,
            ],
        ),
{
    let pieces: Vec<&str> = vec![
        "# [ doc = r\" Register block\" ] # [ repr ( C ) ] pub",
        kind,
        name,
        "{",
        fields,
        "}",
        helpers,
    ];
    assert(strs(pieces@) =~= seq![
        "# [ doc = r\" Register block\" ] # [ repr ( C ) ] pub"@,
        kind@,
        name@,
        "{"@,
        fields@,
        "}"@,
        helpers@,
    ]);
    put_together(&pieces)
}

/// Fields that can be added one after the other can be added up to any of them.
pub(crate) proof fn lemma_regions_fit_prefix(fields: Seq<BlockFieldModel>, k: int)
    requires
        0 <= k <= fields.len(),
        regions_fit(fields),
    ensures
        regions_fit(fields.take(k)),
    decreases fields.len(),
{
    if k == fields.len() {
        assert(fields.take(k) =~= fields);
    } else {
        lemma_regions_fit_prefix(fields.drop_last(), k);
        assert(fields.drop_last().take(k) =~= fields.take(k));
    }
}

/// Locates overlapping fields, which need unions to represent them.
pub fn locate_regions(fields: &Vec<RegisterBlockField>) -> (r: FieldRegions)
    requires
        regions_fit(block_fields(fields@)),
    ensures
        r.wf(),
        r.model() == regions_of(block_fields(fields@)),
{
    let ghost all = block_fields(fields@);
    let mut r = FieldRegions::default();
    let mut i: usize = 0;
    while i < fields.len()
        invariant
            i <= fields@.len(),
            all == block_fields(fields@),
            regions_fit(all),
            r.wf(),
            r.model() == regions_of(all.take(i as int)),
        decreases fields@.len() - i,
    {
        proof {
            lemma_regions_fit_prefix(all, i + 1);
            assert(all.take(i + 1).drop_last() =~= all.take(i as int));
            assert(all.take(i + 1).last() == fields@[i as int].model());
        }
        r.add(&fields[i]);
        i += 1;
    }
    assert(all.take(i as int) =~= all);
    r
}

/// Writes one region: its padding and its fields, and the union type that it needs.
fn write_region<N: Conventions>(
    regions: &Vec<Region>,
    i: usize,
    is_one_union: bool,
    fields: &mut Tokens,
    helpers: &mut Tokens,
    style: &N,
)
    requires
        i < regions@.len(),
        gaps_fit(region_models(regions@)),
        is_one_union == is_union(region_models(regions@)),
        tokens_text(*old(fields)) == block_body(*style, region_models(regions@), i as int),
        tokens_text(*old(helpers)) == helper_types(*style, region_models(regions@), i as int),
    ensures
        tokens_text(*final(fields)) == block_body(*style, region_models(regions@), i + 1),
        tokens_text(*final(helpers)) == helper_types(*style, region_models(regions@), i + 1),
{
    let ghost all = region_models(regions@);
    let ghost before = block_body(*style, all, i as int);
    let region = &regions[i];
    assert(all[i as int] == region.model());
    // Check if we need padding.
    if i > 0 {
        assert(all[i - 1] == regions@[i - 1].model());
        let pad = region.offset - regions[i - 1].end;
        if pad != 0 {
            let gap = write_padding(i, pad);
            append(fields, gap.as_str());
        }
    }
    assert(tokens_text(*fields) == glued(before, padding(all, i as int))) by {
        assert(glued(before, Seq::<char>::empty()) =~= before);
    }
    let variants = write_region_fields(style, region);
    if region.fields.len() > 1 && !is_one_union {
        assert(needs_union(all, i as int));
        let (union_ty, name) = name_union(region, i);
        let description = region.description();
        let def = write_union_def(description.as_str(), union_ty.as_str(), variants.as_str());
        append(helpers, def.as_str());
        let field = write_union_field(description.as_str(), name.as_str(), union_ty.as_str());
        append(fields, field.as_str());
        append(fields, ",");
    } else {
        assert(!needs_union(all, i as int));
        append(fields, variants.as_str());
    }
}

/// Tells whether all fields, and more than one, make one region.
fn block_is_union(regions: &Vec<Region>) -> (b: bool)
    ensures
        b == is_union(region_models(regions@)),
{
    if regions.len() == 1 {
        assert(region_models(regions@)[0] == regions@[0].model());
        regions[0].fields.len() > 1
    } else {
        false
    }
}

/// Writes the fields of a block, and the union types that they need.
fn write_all_regions<N: Conventions>(
    regions: &Vec<Region>,
    is_one_union: bool,
    style: &N,
) -> (r: (Tokens, Tokens))
    requires
        gaps_fit(region_models(regions@)),
        is_one_union == is_union(region_models(regions@)),
    ensures
        tokens_text(r.0) == block_body(
            *style,
            region_models(regions@),
            region_models(regions@).len() as int,
        ),
        tokens_text(r.1) == helper_types(
            *style,
            region_models(regions@),
            region_models(regions@).len() as int,
        ),
{
    let mut fields = Tokens::new();
    let mut helpers = Tokens::new();
    let mut i: usize = 0;
    while i < regions.len()
        invariant
            i <= regions@.len(),
            gaps_fit(region_models(regions@)),
            is_one_union == is_union(region_models(regions@)),
            tokens_text(fields) == block_body(*style, region_models(regions@), i as int),
            tokens_text(helpers) == helper_types(*style, region_models(regions@), i as int),
        decreases regions@.len() - i,
    {
        write_region(regions, i, is_one_union, &mut fields, &mut helpers, style);
        i += 1;
    }
    (fields, helpers)
}

/// Writes a block with these regions.
pub fn write_regions<N: Conventions>(
    regions: &Vec<Region>,
    name: Option<&str>,
    style: &N,
) -> (t: Tokens)
    requires
        gaps_fit(region_models(regions@)),
    ensures
        tokens_text(t) == block_def(*style, region_models(regions@), opt_text(name)),
{
    let is_one_union = block_is_union(regions);
    let (fields, helpers) = write_all_regions(regions, is_one_union, style);
    let block_name = match name {
        Some(name) => style.to_sanitized_upper_case(name),
        None => "RegisterBlock".to_owned(),
    };
    let kind = if is_one_union {
        "union"
    } else {
        "struct"
    };
    write_block(kind, block_name.as_str(), fields.as_str(), helpers.as_str())
}

/// The block for a list of registers and clusters.
pub fn register_or_cluster_block<N: Conventions>(
    ercs: &Vec<RegisterCluster>,
    defs: &Defaults,
    name: Option<&str>,
    style: &N,
) -> (r: Result<Tokens, Error>)
    requires
        block_fits(*style, nodes(ercs@), *defs, opt_text(name)),
    ensures
        tokens_result(r) == block_text(*style, nodes(ercs@), *defs, opt_text(name)),
{
    reveal(block_text);
    reveal(block_fits);
    match expand(ercs, defs, name, style) {
        Err(e) => Err(e),
        Ok(expanded) => {
            // Locate conflicting regions; we'll need to use unions to represent them.
            let regions = locate_regions(&expanded);
            Ok(write_regions(&regions.regions, name, style))
        },
    }
}

} // verus!
