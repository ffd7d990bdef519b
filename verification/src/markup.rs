//! Reading a node label: the markup of a label is a tree of printed markup
//! nodes, and this module turns it into a label tree. Wrapper nodes are
//! flattened away, text runs and ports are merged into the text of the node
//! above them, and a node without an identifier adopts one from below.

use crate::error::Error;
use crate::markup_tree::{
    build_tree, is_walk_of_tree, markup_events, parsed_markup, tree_of, MarkupNode, MarkupView,
};
use crate::model::{
    lemma_raw_label_children, raw_labels_view, HtmlNode, HtmlNodeRaw, LabelView, RawLabelView,
};
use crate::text::{
    contains, contains_seq, find_char, first_index, lemma_first_index, pieces_view, push_char,
    remove_all, slice, split, split_on, to_chars, to_string, without,
};
use vstd::prelude::*;
use vstd::string::StringExecFns;

verus! {

/// `s` without the noise of a text run: escapes, the word `Text`, quotes,
/// brackets, commas, semicolons and the word `Element`, taken out in this order.
pub open spec fn strip_text_noise(s: Seq<char>) -> Seq<char> {
    let s = without(s, "\\n"@);
    let s = without(s, "\\t"@);
    let s = without(s, "Text"@);
    let s = without(s, "\""@);
    let s = without(s, "("@);
    let s = without(s, ")"@);
    let s = without(s, ","@);
    let s = without(s, ";"@);
    let s = without(s, "Element"@);
    s
}

/// `s` without the noise of a markup node: what `strip_text_noise` takes
/// out, and also blanks, angle brackets and the names of the layout
/// elements, taken out in this order.
pub open spec fn strip_markup_noise(s: Seq<char>) -> Seq<char> {
    let s = without(s, "\\n"@);
    let s = without(s, "\\t"@);
    let s = without(s, "Text"@);
    let s = without(s, ")"@);
    let s = without(s, " "@);
    let s = without(s, "\""@);
    let s = without(s, "<"@);
    let s = without(s, ">"@);
    let s = without(s, "("@);
    let s = without(s, ")"@);
    let s = without(s, ","@);
    let s = without(s, ";"@);
    let s = without(s, "Element"@);
    let s = without(s, "html"@);
    let s = without(s, "head"@);
    let s = without(s, "tbody"@);
    let s = without(s, "body"@);
    let s = without(s, "table"@);
    let s = without(s, "tbody"@);
    let s = without(s, "tr"@);
    let s = without(s, "td"@);
    let s = without(s, "width"@);
    s
}

/// A printed markup node is a text run.
pub open spec fn is_text(raw: Seq<char>) -> bool {
    contains_seq(raw, "Text"@)
}

/// A printed markup node carries nothing: a text run that is empty once its
/// noise is gone, or an element that names neither a port nor an identifier.
pub open spec fn is_useless(raw: Seq<char>) -> bool {
    let rest = strip_markup_noise(raw);
    if is_text(raw) {
        rest.len() == 0
    } else {
        !(contains_seq(rest, "port"@) || contains_seq(rest, "id"@))
    }
}

/// A printed markup node names a port and no identifier.
pub open spec fn is_port_only(raw: Seq<char>) -> bool {
    let rest = strip_markup_noise(raw);
    contains_seq(rest, "port"@) && !contains_seq(rest, "id"@)
}

/// The value written after `id=`: what stands between the opening quote and
/// the next one, or the whole piece when it opens with no quote, without
/// the noise of a text run.
pub open spec fn id_value(piece: Seq<char>) -> Seq<char> {
    if piece.len() > 0 && piece[0] == '"' {
        let inner = piece.skip(1);
        strip_text_noise(inner.take(first_index(inner, '"')))
    } else {
        strip_text_noise(piece)
    }
}

/// The identifier that a list of tokens assigns: the value of the last
/// token that holds `id=`.
pub open spec fn id_in_tokens(tokens: Seq<Seq<char>>) -> Option<Seq<char>>
    decreases tokens.len(),
{
    if tokens.len() == 0 {
        None
    } else {
        let token = tokens.last();
        let parts = split_on(token, '=');
        if contains_seq(token, "id="@) && parts.len() > 1 {
            Some(id_value(parts[1]))
        } else {
            id_in_tokens(tokens.drop_last())
        }
    }
}

/// The identifier that a printed markup node assigns, if it assigns one.
/// Its tokens are the pieces between blanks.
pub open spec fn id_from_raw(raw: Seq<char>) -> Option<Seq<char>> {
    id_in_tokens(split_on(raw, ' '))
}

/// Takes the noise of a text run out of `id`.
pub fn get_filter_text_str(id: &str) -> (r: String)
    ensures
        r@ == strip_text_noise(id@),
{
    to_string(&filter_text(&to_chars(id)))
}

fn filter_text(s: &Vec<char>) -> (r: Vec<char>)
    ensures
        r@ == strip_text_noise(s@),
{
    let s = remove_all(s, &to_chars("\\n"));
    let s = remove_all(&s, &to_chars("\\t"));
    let s = remove_all(&s, &to_chars("Text"));
    let s = remove_all(&s, &to_chars("\""));
    let s = remove_all(&s, &to_chars("("));
    let s = remove_all(&s, &to_chars(")"));
    let s = remove_all(&s, &to_chars(","));
    let s = remove_all(&s, &to_chars(";"));
    let s = remove_all(&s, &to_chars("Element"));
    s
}

/// Takes the noise of a markup node out of `id`.
pub fn get_filter_str(id: &str) -> (r: String)
    ensures
        r@ == strip_markup_noise(id@),
{
    to_string(&filter_markup(&to_chars(id)))
}

fn filter_markup(s: &Vec<char>) -> (r: Vec<char>)
    ensures
        r@ == strip_markup_noise(s@),
{
    let s = remove_all(s, &to_chars("\\n"));
    let s = remove_all(&s, &to_chars("\\t"));
    let s = remove_all(&s, &to_chars("Text"));
    let s = remove_all(&s, &to_chars(")"));
    let s = remove_all(&s, &to_chars(" "));
    let s = remove_all(&s, &to_chars("\""));
    let s = remove_all(&s, &to_chars("<"));
    let s = remove_all(&s, &to_chars(">"));
    let s = remove_all(&s, &to_chars("("));
    let s = remove_all(&s, &to_chars(")"));
    let s = remove_all(&s, &to_chars(","));
    let s = remove_all(&s, &to_chars(";"));
    let s = remove_all(&s, &to_chars("Element"));
    let s = remove_all(&s, &to_chars("html"));
    let s = remove_all(&s, &to_chars("head"));
    let s = remove_all(&s, &to_chars("tbody"));
    let s = remove_all(&s, &to_chars("body"));
    let s = remove_all(&s, &to_chars("table"));
    let s = remove_all(&s, &to_chars("tbody"));
    let s = remove_all(&s, &to_chars("tr"));
    let s = remove_all(&s, &to_chars("td"));
    let s = remove_all(&s, &to_chars("width"));
    s
}

/// Whether a printed markup node carries nothing.
pub fn check_useless_id(id: &str) -> (b: bool)
    ensures
        b == is_useless(id@),
{
    let raw = to_chars(id);
    let rest = filter_markup(&raw);
    if contains(&raw, &to_chars("Text")) {
        rest.len() == 0
    } else {
        !(contains(&rest, &to_chars("port")) || contains(&rest, &to_chars("id")))
    }
}

/// Whether a printed markup node is a text run.
pub fn check_text(raw: &str) -> (b: bool)
    ensures
        b == is_text(raw@),
{
    contains(&to_chars(raw), &to_chars("Text"))
}

/// Whether a printed markup node names a port and no identifier.
pub fn check_port_only(raw: &str) -> (b: bool)
    ensures
        b == is_port_only(raw@),
{
    let rest = filter_markup(&to_chars(raw));
    contains(&rest, &to_chars("port")) && !contains(&rest, &to_chars("id"))
}

fn value_of(piece: &Vec<char>) -> (r: Vec<char>)
    ensures
        r@ == id_value(piece@),
{
    if piece.len() > 0 && piece[0] == '"' {
        let inner = slice(piece, 1, piece.len());
        let end = find_char(&inner, '"');
        proof {
            lemma_first_index(inner@, '"');
            assert(inner@ =~= piece@.skip(1));
        }
        let cut = slice(&inner, 0, end);
        assert(cut@ =~= inner@.take(end as int));
        filter_text(&cut)
    } else {
        filter_text(piece)
    }
}

/// The identifier that a printed markup node assigns, if it assigns one.
pub fn get_id_from_raw(raw: &str) -> (r: Option<String>)
    ensures
        match r {
            Some(id) => id_from_raw(raw@) == Some(id@),
            None => id_from_raw(raw@) is None,
        },
{
    let tokens = split(&to_chars(raw), ' ');
    let marker = to_chars("id=");
    let mut found: Option<Vec<char>> = None;
    let mut i: usize = 0;
    let ghost all = pieces_view(tokens@);
    assert(all.take(0) =~= Seq::<Seq<char>>::empty());
    while i < tokens.len()
        invariant
            i <= tokens.len(),
            all == pieces_view(tokens@),
            marker@ == "id="@,
            match found {
                Some(id) => id_in_tokens(all.take(i as int)) == Some(id@),
                None => id_in_tokens(all.take(i as int)) is None,
            },
        decreases tokens.len() - i,
    {
        proof {
            assert(all.take(i + 1).drop_last() =~= all.take(i as int));
            assert(all.take(i + 1).last() == tokens@[i as int]@);
        }
        if contains(&tokens[i], &marker) {
            let parts = split(&tokens[i], '=');
            if parts.len() > 1 {
                found = Some(value_of(&parts[1]));
            }
        }
        i += 1;
    }
    assert(all.take(i as int) =~= all);
    match found {
        Some(id) => Some(to_string(&id)),
        None => None,
    }
}

/// What reading one markup node gives: the label node that stands for it,
/// and the nodes that it hands up to the node above because it carries
/// nothing itself.
pub struct Normalized {
    pub label: RawLabelView,
    pub promoted: Seq<RawLabelView>,
}

/// The labels of the children that carry something, in order.
pub open spec fn retained_of(kids: Seq<Normalized>) -> Seq<RawLabelView>
    decreases kids.len(),
{
    if kids.len() == 0 {
        Seq::empty()
    } else {
        let before = retained_of(kids.drop_last());
        if is_useless(kids.last().label.raw) {
            before
        } else {
            before.push(kids.last().label)
        }
    }
}

/// The nodes handed up by the children, in order.
pub open spec fn promoted_of(kids: Seq<Normalized>) -> Seq<RawLabelView>
    decreases kids.len(),
{
    if kids.len() == 0 {
        Seq::empty()
    } else {
        promoted_of(kids.drop_last()) + kids.last().promoted
    }
}

/// The text that a list of nodes gives to the node above: each text run
/// gives its text without noise and a colon, each port gives the text it has
/// gathered, and the others give nothing.
pub open spec fn merged_text(working: Seq<RawLabelView>) -> Seq<char>
    decreases working.len(),
{
    if working.len() == 0 {
        Seq::empty()
    } else {
        let before = merged_text(working.drop_last());
        let w = working.last();
        if is_text(w.raw) {
            before + strip_text_noise(w.raw) + seq![':']
        } else if is_port_only(w.raw) {
            before + w.text
        } else {
            before
        }
    }
}

/// The nodes of a list that stay as children: those that are neither a
/// text run nor a port.
pub open spec fn structural_of(working: Seq<RawLabelView>) -> Seq<RawLabelView>
    decreases working.len(),
{
    if working.len() == 0 {
        Seq::empty()
    } else {
        let before = structural_of(working.drop_last());
        let w = working.last();
        if is_text(w.raw) || is_port_only(w.raw) {
            before
        } else {
            before.push(w)
        }
    }
}

/// The identifier of a node: its own, or, when it has none, what stands
/// before the first colon in the identifier of its first child.
pub open spec fn adopted_id(own: Option<Seq<char>>, children: Seq<RawLabelView>) -> Seq<char> {
    let own = match own {
        Some(id) => id,
        None => Seq::empty(),
    };
    if own.len() == 0 && children.len() > 0 {
        split_on(children[0].id, ':')[0]
    } else {
        own
    }
}

/// What a markup node gives, from its printed form and from what its
/// children gave. The children that carry something come first, then the
/// nodes that the others handed up.
pub open spec fn assemble(raw: Seq<char>, kids: Seq<Normalized>) -> Normalized {
    let working = retained_of(kids) + promoted_of(kids);
    let children = structural_of(working);
    Normalized {
        label: RawLabelView {
            text: merged_text(working),
            id: adopted_id(id_from_raw(raw), children),
            children,
            raw,
        },
        promoted: if is_useless(raw) {
            working
        } else {
            Seq::empty()
        },
    }
}

/// What the children of a markup node give.
pub open spec fn normalize_children(m: MarkupView) -> Seq<Normalized>
    decreases m, 0nat,
{
    Seq::new(
        m.children.len(),
        |i: int|
            if 0 <= i < m.children.len() {
                normalize(m.children[i])
            } else {
                arbitrary()
            },
    )
}

/// What a markup node gives.
pub open spec fn normalize(m: MarkupView) -> Normalized
    decreases m, 1nat,
{
    assemble(m.raw, normalize_children(m))
}

/// Reads the markup node `node`: leaves its label node in `html_node` and
/// appends to `fa_children` the nodes that it hands up.
pub fn check_html_node(
    node: &MarkupNode,
    html_node: &mut HtmlNodeRaw,
    fa_children: &mut Vec<HtmlNodeRaw>,
)
    ensures
        final(html_node)@ == normalize(node@).label,
        raw_labels_view(final(fa_children)@) == raw_labels_view(old(fa_children)@) + normalize(
            node@,
        ).promoted,
    decreases node,
{
    let ghost kids = normalize_children(node@);
    let mut retained: Vec<HtmlNodeRaw> = Vec::new();
    let mut promoted: Vec<HtmlNodeRaw> = Vec::new();
    let mut i: usize = 0;
    proof {
        assert(kids.take(0) =~= Seq::<Normalized>::empty());
        assert(raw_labels_view(retained@) =~= Seq::<RawLabelView>::empty());
        assert(raw_labels_view(promoted@) =~= Seq::<RawLabelView>::empty());
    }
    while i < node.children.len()
        invariant
            i <= node.children.len(),
            kids == normalize_children(node@),
            kids.len() == node.children.len(),
            raw_labels_view(retained@) == retained_of(kids.take(i as int)),
            raw_labels_view(promoted@) == promoted_of(kids.take(i as int)),
        decreases node.children.len() - i,
    {
        let mut child = HtmlNodeRaw::default();
        check_html_node(&node.children[i], &mut child, &mut promoted);
        proof {
            assert(node@.children[i as int] == node.children@[i as int]@);
            assert(kids[i as int] == normalize(node.children@[i as int]@));
            assert(kids.take(i + 1).drop_last() =~= kids.take(i as int));
            assert(kids.take(i + 1).last() == kids[i as int]);
        }
        if !check_useless_id(child.raw.as_str()) {
            proof {
                assert(raw_labels_view(retained@.push(child)) =~= raw_labels_view(retained@).push(
                    child@,
                ));
            }
            retained.push(child);
        }
        i += 1;
    }
    assert(kids.take(i as int) =~= kids);
    let ghost working_view = retained_of(kids) + promoted_of(kids);
    let mut working = retained;
    proof {
        assert(raw_labels_view(working@ + promoted@) =~= working_view);
    }
    working.append(&mut promoted);
    if check_useless_id(node.raw.as_str()) {
        let ghost before = raw_labels_view(fa_children@);
        let mut j: usize = 0;
        while j < working.len()
            invariant
                j <= working.len(),
                raw_labels_view(working@) == working_view,
                raw_labels_view(fa_children@) == before + working_view.take(j as int),
            decreases working.len() - j,
        {
            let w = working[j].copy();
            proof {
                assert(w@ == working_view[j as int]);
                assert(working_view.take(j + 1) =~= working_view.take(j as int).push(w@));
                assert(raw_labels_view(fa_children@.push(w)) =~= raw_labels_view(
                    fa_children@,
                ).push(w@));
            }
            fa_children.push(w);
            j += 1;
        }
        assert(working_view.take(j as int) =~= working_view);
    } else {
        assert(raw_labels_view(fa_children@) + Seq::<RawLabelView>::empty() =~= raw_labels_view(
            fa_children@,
        ));
    }
    let mut text = String::new();
    let mut children: Vec<HtmlNodeRaw> = Vec::new();
    let mut j: usize = 0;
    proof {
        assert(working_view.take(0) =~= Seq::<RawLabelView>::empty());
        assert(raw_labels_view(children@) =~= Seq::<RawLabelView>::empty());
    }
    while j < working.len()
        invariant
            j <= working.len(),
            raw_labels_view(working@) == working_view,
            text@ == merged_text(working_view.take(j as int)),
            raw_labels_view(children@) == structural_of(working_view.take(j as int)),
        decreases working.len() - j,
    {
        proof {
            assert(working_view.take(j + 1).drop_last() =~= working_view.take(j as int));
            assert(working_view.take(j + 1).last() == working@[j as int]@);
        }
        let w = &working[j];
        if check_text(w.raw.as_str()) {
            let piece = get_filter_text_str(w.raw.as_str());
            text.append(piece.as_str());
            push_char(&mut text, ':');
            assert(text@ =~= merged_text(working_view.take(j + 1)));
        } else if check_port_only(w.raw.as_str()) {
            text.append(w.text.as_str());
        } else {
            let kept = w.copy();
            proof {
                assert(raw_labels_view(children@.push(kept)) =~= raw_labels_view(children@).push(
                    kept@,
                ));
            }
            children.push(kept);
        }
        j += 1;
    }
    assert(working_view.take(j as int) =~= working_view);
    let own = get_id_from_raw(node.raw.as_str());
    let own_id = match own {
        Some(id) => id,
        None => String::new(),
    };
    let id = if own_id.as_str().unicode_len() == 0 && children.len() > 0 {
        let parts = split(&to_chars(children[0].id.as_str()), ':');
        to_string(&parts[0])
    } else {
        own_id
    };
    let result = HtmlNodeRaw { text, id, children, raw: node.raw.clone() };
    proof {
        lemma_raw_label_children(result);
    }
    *html_node = result;
}

/// A label node without the printed form of its markup node.
pub open spec fn bare(n: RawLabelView) -> LabelView
    decreases n,
{
    LabelView {
        text: n.text,
        id: n.id,
        children: Seq::new(
            n.children.len(),
            |i: int|
                if 0 <= i < n.children.len() {
                    bare(n.children[i])
                } else {
                    arbitrary()
                },
        ),
    }
}

fn bare_copy(raw: &HtmlNodeRaw) -> (n: HtmlNode)
    ensures
        n@ == bare(raw@),
    decreases raw,
{
    let mut children: Vec<HtmlNode> = Vec::new();
    let mut i: usize = 0;
    while i < raw.children.len()
        invariant
            i <= raw.children.len(),
            children.len() == i,
            forall|k: int| 0 <= k < i ==> children@[k]@ == bare(raw.children@[k]@),
        decreases raw.children.len() - i,
    {
        let child = bare_copy(&raw.children[i]);
        children.push(child);
        i += 1;
    }
    let n = HtmlNode { text: raw.text.clone(), id: raw.id.clone(), children };
    assert(n@.children =~= bare(raw@).children);
    n
}

/// Drops the printed forms from a label tree.
pub fn raw_html_node_to_html_node(raw: HtmlNodeRaw) -> (n: HtmlNode)
    ensures
        n@ == bare(raw@),
{
    bare_copy(&raw)
}

/// The label tree of a markup tree: what its root gives, with the nodes
/// that the root hands up, if it carries nothing, after its own children.
pub open spec fn label_of(m: MarkupView) -> LabelView {
    let n = normalize(m);
    bare(
        RawLabelView {
            text: n.label.text,
            id: n.label.id,
            children: n.label.children + n.promoted,
            raw: n.label.raw,
        },
    )
}

/// Reads a markup tree into a label tree.
pub fn normalize_markup(tree: &MarkupNode) -> (n: HtmlNode)
    ensures
        n@ == label_of(tree@),
{
    let mut html_node = HtmlNodeRaw::default();
    let mut fa_children: Vec<HtmlNodeRaw> = Vec::new();
    assert(raw_labels_view(fa_children@) =~= Seq::<RawLabelView>::empty());
    check_html_node(tree, &mut html_node, &mut fa_children);
    let ghost label = html_node@;
    let ghost promoted = raw_labels_view(fa_children@);
    assert(promoted =~= normalize(tree@).promoted);
    let HtmlNodeRaw { text, id, children, raw } = html_node;
    let mut children = children;
    proof {
        assert(raw_labels_view(children@) =~= label.children);
        assert(raw_labels_view(children@ + fa_children@) =~= label.children + promoted);
    }
    children.append(&mut fa_children);
    let whole = HtmlNodeRaw { text, id, children, raw };
    proof {
        lemma_raw_label_children(whole);
    }
    raw_html_node_to_html_node(whole)
}

/// Reads the markup of a label into a label tree.
pub fn check_html(raw_html: String) -> (r: Result<HtmlNode, Error>)
    ensures
        r is Ok <==> is_walk_of_tree(parsed_markup(raw_html@)),
        r matches Ok(node) ==> node@ == label_of(tree_of(parsed_markup(raw_html@))),
        r matches Err(e) ==> e == Error::MalformedMarkup,
{
    let events = markup_events(raw_html.as_str());
    match build_tree(&events) {
        Ok(tree) => Ok(normalize_markup(&tree)),
        Err(e) => Err(e),
    }
}

} // verus!
