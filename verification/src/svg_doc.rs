use vstd::prelude::*;

verus! {

#[verifier::external_type_specification]
#[verifier::external_body]
pub struct ExSvgDocument(svg::node::element::SVG);

#[verifier::external_type_specification]
#[verifier::external_body]
pub struct ExSvgPath(svg::node::element::Path);

/// What an `<svg>` element holds as attributes: a map from attribute name to
/// attribute text.
pub uninterp spec fn doc_attrs(doc: svg::node::element::SVG) -> Map<Seq<char>, Seq<char>>;

/// What an `<svg>` element holds as children: the attribute map of each child
/// `<path>` element, in insertion order.
pub uninterp spec fn doc_paths(doc: svg::node::element::SVG) -> Seq<Map<Seq<char>, Seq<char>>>;

/// What a `<path>` element holds as attributes.
pub uninterp spec fn path_attrs(path: svg::node::element::Path) -> Map<Seq<char>, Seq<char>>;

/// The markup that serializing an `<svg>` element yields: a function of the
/// element value alone (the serializer sorts attributes by name and prints
/// children in order, so nothing else enters).
pub uninterp spec fn svg_markup(doc: svg::node::element::SVG) -> Seq<char>;

/// An attribute map with nothing assigned.
pub open spec fn no_attrs() -> Map<Seq<char>, Seq<char>> {
    Map::empty()
}

/// A child list with nothing appended.
pub open spec fn no_paths() -> Seq<Map<Seq<char>, Seq<char>>> {
    Seq::empty()
}

/// The namespace attribute text every fresh `<svg>` element carries.
pub open spec fn xmlns_value() -> Seq<char> {
    "http://www.w3.org/2000/svg"@
}

/// Relies on `svg::node::element::SVG::new`: a fresh `<svg>` element with no
/// children, carrying only its `xmlns` attribute.
#[verifier::external_body]
pub(crate) fn document_new() -> (r: svg::node::element::SVG)
    ensures
        doc_attrs(r) == no_attrs().insert("xmlns"@, xmlns_value()),
        doc_paths(r) == no_paths(),
{
    svg::node::element::SVG::new()
}

/// Relies on `svg::node::element::SVG::set`: assigns one attribute of the
/// `<svg>` element (a map insert, overwriting any earlier value) and touches
/// no child.
#[verifier::external_body]
pub(crate) fn document_set(doc: svg::node::element::SVG, name: &str, value: &str) -> (r:
    svg::node::element::SVG)
    ensures
        doc_attrs(r) == doc_attrs(doc).insert(name@, value@),
        doc_paths(r) == doc_paths(doc),
{
    doc.set(name, value)
}

/// Relies on `svg::node::element::SVG::add`: appends one child element at the
/// end and touches no attribute.
#[verifier::external_body]
pub(crate) fn document_add(
    doc: svg::node::element::SVG,
    path: svg::node::element::Path,
) -> (r: svg::node::element::SVG)
    ensures
        doc_attrs(r) == doc_attrs(doc),
        doc_paths(r) == doc_paths(doc).push(path_attrs(path)),
{
    doc.add(path)
}

/// Relies on the `Display` implementation of `svg::node::element::SVG` (via
/// `ToString`): serializes the document as SVG markup, a deterministic
/// function of the document value.
#[verifier::external_body]
pub(crate) fn document_to_string(doc: &svg::node::element::SVG) -> (r: String)
    ensures
        r@ == svg_markup(*doc),
{
    doc.to_string()
}

/// Relies on `svg::node::element::Path::new`: a fresh `<path>` element with no
/// attributes.
#[verifier::external_body]
pub(crate) fn path_new() -> (r: svg::node::element::Path)
    ensures
        path_attrs(r) == no_attrs(),
{
    svg::node::element::Path::new()
}

/// Relies on `svg::node::element::Path::set`: assigns one attribute of the
/// `<path>` element (a map insert, overwriting any earlier value).
#[verifier::external_body]
pub(crate) fn path_set(path: svg::node::element::Path, name: &str, value: &str) -> (r:
    svg::node::element::Path)
    ensures
        path_attrs(r) == path_attrs(path).insert(name@, value@),
{
    path.set(name, value)
}

} // verus!
