use vstd::prelude::*;

verus! {

/// One styled run of inline text within a line: plain prose, inline code,
/// a link, emphasised or strong text.
#[derive(Debug, Clone)]
pub enum TextSegment {
    Plain(String),
    Code(String),
    Link { text: String, url: String },
    Emphasis(String),
    Strong(String),
}

/// The mathematical value of a `TextSegment`: the same variants over
/// character sequences.
#[verifier::ext_equal]
pub enum SegView {
    Plain(Seq<char>),
    Code(Seq<char>),
    Link { text: Seq<char>, url: Seq<char> },
    Emphasis(Seq<char>),
    Strong(Seq<char>),
}

impl View for TextSegment {
    type V = SegView;

    open spec fn view(&self) -> SegView {
        match self {
            TextSegment::Plain(s) => SegView::Plain(s@),
            TextSegment::Code(s) => SegView::Code(s@),
            TextSegment::Link { text, url } => SegView::Link { text: text@, url: url@ },
            TextSegment::Emphasis(s) => SegView::Emphasis(s@),
            TextSegment::Strong(s) => SegView::Strong(s@),
        }
    }
}

/// One rendered line of a document: an ordered run of segments plus the
/// block-kind flags. `heading_level` is 0 for a non-heading, 1 to 6 otherwise.
#[derive(Debug, Clone)]
pub struct RenderedLine {
    pub segments: Vec<TextSegment>,
    pub heading_level: u8,
    pub is_code_block: bool,
    pub is_blockquote: bool,
    pub is_list_item: bool,
    pub is_horizontal_rule: bool,
    pub is_table_row: bool,
    pub is_table_separator: bool,
}

/// The mathematical value of a `RenderedLine`.
#[verifier::ext_equal]
pub struct LineView {
    pub segments: Seq<SegView>,
    pub heading_level: u8,
    pub is_code_block: bool,
    pub is_blockquote: bool,
    pub is_list_item: bool,
    pub is_horizontal_rule: bool,
    pub is_table_row: bool,
    pub is_table_separator: bool,
}

impl View for RenderedLine {
    type V = LineView;

    open spec fn view(&self) -> LineView {
        LineView {
            segments: self.segments@.map_values(|s: TextSegment| s@),
            heading_level: self.heading_level,
            is_code_block: self.is_code_block,
            is_blockquote: self.is_blockquote,
            is_list_item: self.is_list_item,
            is_horizontal_rule: self.is_horizontal_rule,
            is_table_row: self.is_table_row,
            is_table_separator: self.is_table_separator,
        }
    }
}

/// The view of a whole document: each line's mathematical value, in order.
pub open spec fn lines_view(ls: Seq<RenderedLine>) -> Seq<LineView> {
    ls.map_values(|l: RenderedLine| l@)
}

/// A line with no segments and no flags set.
pub open spec fn empty_line_view() -> LineView {
    LineView {
        segments: Seq::empty(),
        heading_level: 0,
        is_code_block: false,
        is_blockquote: false,
        is_list_item: false,
        is_horizontal_rule: false,
        is_table_row: false,
        is_table_separator: false,
    }
}

/// A plain, unflagged line holding the single text `t` — or no segments at
/// all when `t` is empty.
pub open spec fn plain_line_view(t: Seq<char>) -> LineView {
    line_push_plain(empty_line_view(), t)
}

/// Appending plain text to a line: empty text is dropped, anything else
/// becomes one more `Plain` segment.
pub open spec fn line_push_plain(l: LineView, t: Seq<char>) -> LineView {
    if t.len() == 0 {
        l
    } else {
        LineView { segments: l.segments.push(SegView::Plain(t)), ..l }
    }
}

/// Concatenation of a sequence of texts.
pub open spec fn concat_texts(ss: Seq<Seq<char>>) -> Seq<char>
    decreases ss.len(),
{
    if ss.len() == 0 {
        Seq::empty()
    } else {
        ss[0] + concat_texts(ss.drop_first())
    }
}

pub proof fn lemma_concat_texts_push(ss: Seq<Seq<char>>, t: Seq<char>)
    ensures
        concat_texts(ss.push(t)) == concat_texts(ss) + t,
    decreases ss.len(),
{
    if ss.len() == 0 {
        assert(ss.push(t)[0] == t);
        assert(ss.push(t).drop_first() =~= Seq::<Seq<char>>::empty());
        assert(concat_texts(ss.push(t)) == t + concat_texts(Seq::<Seq<char>>::empty()));
        assert(concat_texts(ss.push(t)) =~= concat_texts(ss) + t);
    } else {
        assert(ss.push(t)[0] == ss[0]);
        assert(ss.push(t).drop_first() =~= ss.drop_first().push(t));
        lemma_concat_texts_push(ss.drop_first(), t);
        assert(concat_texts(ss.push(t)) =~= concat_texts(ss) + t);
    }
}

/// The text a segment contributes when a line is flattened for wrapping and
/// width accounting: inline code regains its backticks, a link shows its
/// text.
pub open spec fn seg_wrap_text(s: SegView) -> Seq<char> {
    match s {
        SegView::Plain(t) => t,
        SegView::Code(t) => seq!['`'] + t + seq!['`'],
        SegView::Link { text, .. } => text,
        SegView::Emphasis(t) => t,
        SegView::Strong(t) => t,
    }
}

/// The text a segment contributes when a line is flattened for searching:
/// the raw text of every variant, with no decoration.
pub open spec fn seg_search_text(s: SegView) -> Seq<char> {
    match s {
        SegView::Plain(t) => t,
        SegView::Code(t) => t,
        SegView::Link { text, .. } => text,
        SegView::Emphasis(t) => t,
        SegView::Strong(t) => t,
    }
}

/// A line's flattened text for wrapping and width accounting.
pub open spec fn flat_wrap(l: LineView) -> Seq<char> {
    concat_texts(l.segments.map_values(|s: SegView| seg_wrap_text(s)))
}

/// A line's flattened text for searching.
pub open spec fn flat_search(l: LineView) -> Seq<char> {
    concat_texts(l.segments.map_values(|s: SegView| seg_search_text(s)))
}

impl RenderedLine {
    /// A fresh line with no segments and no flags.
    pub fn new() -> (r: Self)
        ensures
            r@ == empty_line_view(),
    {
        let r = Self {
            segments: Vec::new(),
            heading_level: 0,
            is_code_block: false,
            is_blockquote: false,
            is_list_item: false,
            is_horizontal_rule: false,
            is_table_row: false,
            is_table_separator: false,
        };
        proof {
            assert(r@ =~= empty_line_view());
        }
        r
    }

    /// A fresh empty line, under the name the rest of the crate uses for a
    /// blank separator.
    pub fn new_empty() -> (r: Self)
        ensures
            r@ == empty_line_view(),
    {
        Self::new()
    }

    /// Append plain text; empty text is dropped.
    pub fn push_plain(&mut self, text: String)
        ensures
            final(self)@ == line_push_plain(old(self)@, text@),
    {
        if !text.as_str().is_empty() {
            self.segments.push(TextSegment::Plain(text));
            proof {
                assert(self@ =~= line_push_plain(old(self)@, text@));
            }
        } else {
            proof {
                assert(self@ =~= line_push_plain(old(self)@, text@));
            }
        }
    }

    /// Append an inline-code segment.
    pub fn push_code(&mut self, text: String)
        ensures
            final(self)@ == (LineView {
                segments: old(self)@.segments.push(SegView::Code(text@)),
                ..old(self)@
            }),
    {
        self.segments.push(TextSegment::Code(text));
        proof {
            assert(self@ =~= LineView {
                segments: old(self)@.segments.push(SegView::Code(text@)),
                ..old(self)@
            });
        }
    }

    /// Append a link segment.
    pub fn push_link(&mut self, text: String, url: String)
        ensures
            final(self)@ == (LineView {
                segments: old(self)@.segments.push(
                    SegView::Link { text: text@, url: url@ },
                ),
                ..old(self)@
            }),
    {
        self.segments.push(TextSegment::Link { text, url });
        proof {
            assert(self@ =~= LineView {
                segments: old(self)@.segments.push(
                    SegView::Link { text: text@, url: url@ },
                ),
                ..old(self)@
            });
        }
    }

    /// Append an emphasis segment.
    pub fn push_emphasis(&mut self, text: String)
        ensures
            final(self)@ == (LineView {
                segments: old(self)@.segments.push(SegView::Emphasis(text@)),
                ..old(self)@
            }),
    {
        self.segments.push(TextSegment::Emphasis(text));
        proof {
            assert(self@ =~= LineView {
                segments: old(self)@.segments.push(SegView::Emphasis(text@)),
                ..old(self)@
            });
        }
    }

    /// Append a strong segment.
    pub fn push_strong(&mut self, text: String)
        ensures
            final(self)@ == (LineView {
                segments: old(self)@.segments.push(SegView::Strong(text@)),
                ..old(self)@
            }),
    {
        self.segments.push(TextSegment::Strong(text));
        proof {
            assert(self@ =~= LineView {
                segments: old(self)@.segments.push(SegView::Strong(text@)),
                ..old(self)@
            });
        }
    }

    /// The line flattened to plain text, with inline code wrapped in
    /// backticks — the form used for width accounting.
    pub fn to_plain_string(&self) -> (r: String)
        ensures
            r@ == flat_wrap(self@),
    {
        let mut r = String::new();
        let mut i: usize = 0;
        proof {
            reveal_strlit("`");
            assert(self@.segments.map_values(|s: SegView| seg_wrap_text(s)).take(0)
                =~= Seq::<Seq<char>>::empty());
        }
        while i < self.segments.len()
            invariant
                i <= self.segments.len(),
                self@.segments.len() == self.segments.len(),
                r@ == concat_texts(
                    self@.segments.map_values(|s: SegView| seg_wrap_text(s)).take(i as int),
                ),
            decreases self.segments.len() - i,
        {
            let ghost texts = self@.segments.map_values(|s: SegView| seg_wrap_text(s));
            proof {
                assert(texts.take(i + 1) =~= texts.take(i as int).push(texts[i as int]));
                lemma_concat_texts_push(texts.take(i as int), texts[i as int]);
                reveal_strlit("`");
            }
            match &self.segments[i] {
                TextSegment::Plain(s) => {
                    r.append(s.as_str());
                }
                TextSegment::Code(s) => {
                    r.append("`");
                    r.append(s.as_str());
                    r.append("`");
                    proof {
                        assert(r@ =~= concat_texts(texts.take(i + 1)));
                    }
                }
                TextSegment::Link { text, .. } => {
                    r.append(text.as_str());
                }
                TextSegment::Emphasis(s) => {
                    r.append(s.as_str());
                }
                TextSegment::Strong(s) => {
                    r.append(s.as_str());
                }
            }
            i = i + 1;
        }
        proof {
            assert(self@.segments.map_values(|s: SegView| seg_wrap_text(s))
                .take(self.segments.len() as int)
                =~= self@.segments.map_values(|s: SegView| seg_wrap_text(s)));
        }
        r
    }

    /// The line flattened to undecorated plain text — the form searched.
    pub fn to_search_string(&self) -> (r: String)
        ensures
            r@ == flat_search(self@),
    {
        let mut r = String::new();
        let mut i: usize = 0;
        proof {
            assert(self@.segments.map_values(|s: SegView| seg_search_text(s)).take(0)
                =~= Seq::<Seq<char>>::empty());
        }
        while i < self.segments.len()
            invariant
                i <= self.segments.len(),
                self@.segments.len() == self.segments.len(),
                r@ == concat_texts(
                    self@.segments.map_values(|s: SegView| seg_search_text(s)).take(i as int),
                ),
            decreases self.segments.len() - i,
        {
            let ghost texts = self@.segments.map_values(|s: SegView| seg_search_text(s));
            proof {
                assert(texts.take(i + 1) =~= texts.take(i as int).push(texts[i as int]));
                lemma_concat_texts_push(texts.take(i as int), texts[i as int]);
            }
            match &self.segments[i] {
                TextSegment::Plain(s) => {
                    r.append(s.as_str());
                }
                TextSegment::Code(s) => {
                    r.append(s.as_str());
                }
                TextSegment::Link { text, .. } => {
                    r.append(text.as_str());
                }
                TextSegment::Emphasis(s) => {
                    r.append(s.as_str());
                }
                TextSegment::Strong(s) => {
                    r.append(s.as_str());
                }
            }
            i = i + 1;
        }
        proof {
            assert(self@.segments.map_values(|s: SegView| seg_search_text(s))
                .take(self.segments.len() as int)
                =~= self@.segments.map_values(|s: SegView| seg_search_text(s)));
        }
        r
    }
}

} // verus!
