# Furas

Fuzzy extraction of data from HTML.  Instead of locating the elements of
interest with rigid CSS selectors, furas computes a *signature* of each
element picked on a sample page (tag, attributes, depth, position, text
length), groups the signatures of a page's fields into a *model*, and finds
on other instances of the page the elements whose signatures are closest.

## Layout

- `src/` is the library, verified with Verus:
  - `dom.rs`: a parsed document as an arena of nodes in document order, and
    its mathematical model (parents, subtree ends, depths);
  - `selector.rs`: the first element below a node that a CSS selector picks;
  - `text.rs`: whitespace splitting and lexicographic sorting of tokens;
  - `signature.rs`: signatures of elements and the normalisation of
    attribute values;
  - `compare.rs`: the comparison of a candidate element with a signature,
    criterion by criterion, in exact integers;
  - `score.rs`: the elements that match a signature (score at least 0.75)
    and the best match of each field;
  - `utils.rs`: tag-name similarity, index among siblings, set
    intersection and lowest common ancestor;
  - `model.rs`: building a model from a sample page and extracting fields
    with it.
- `app/` is the Python module (pyo3), the JSON form of models (serde) and the
  floating-point scoring that turns the criteria of a comparison into one
  score.
- `tests/` holds the tests of the library.
