//! A writer that turns labelled text into runs of styled text.
//!
//! Text arrives in fragments, between operations that open and close
//! labels. The stack of open labels decides the style of the text that
//! follows. Each time text is written the writer closes the run written so
//! far and restyles. A line break is written in the style of the empty
//! stack, so that every line is styled by itself.

use std::sync::Arc;
use vstd::prelude::*;
use vstd::string::StringExecFns;
use vstd::string::StringSliceAdditionalSpecFns;
use egui::Color32;
use crate::rules::labels_view;
use crate::rules::prevails;
use crate::rules::Field;
use crate::rules::resolve;
use crate::rules::resolved;
use crate::rules::rules_view;
use crate::rules::RuleView;
use crate::rules::Rules;
use crate::sanitize::lemma_sanitized_len;
use crate::sanitize::sanitized;
use crate::sanitize::write_all;
use crate::sanitize::write_sanitized;
use crate::style::color32_from_rgb;
use crate::style::color_to_egui;
use crate::style::color_to_egui_spec;
use crate::style::default_color;
use crate::style::default_color_spec;
use crate::style::is_drawable;
use crate::style::unset;
use crate::style::Color;
use crate::style::Style;

verus! {

/// How a run of text is drawn.
#[derive(Clone, Copy, Debug, PartialEq)]
pub struct TextFormat {
    /// The color of the text.
    pub color: Color32,
    /// The color behind the text; `None` where it was never set or is
    /// reset, so that nothing is drawn behind the text.
    pub background: Option<Color32>,
    /// Whether the text is slanted.
    pub italics: bool,
    /// The color of the line under the text, if it has one.
    pub underline: Option<Color32>,
}

/// The color of text whose format was never set: `egui`'s default text
/// color, gray.
pub open spec fn default_text_color() -> Color32 {
    color32_from_rgb(160, 160, 160)
}

/// The format of text whose format was never set.
pub open spec fn default_format() -> TextFormat {
    TextFormat {
        color: default_text_color(),
        background: None,
        italics: false,
        underline: None,
    }
}

/// The text color of `egui::TextFormat::default()`, which the crate sets
/// to `Color32::GRAY`, defined there as `from_rgb(160, 160, 160)`.
#[verifier::external_body]
fn default_format_color() -> (color: Color32)
    ensures
        color == color32_from_rgb(160, 160, 160),
{
    egui::TextFormat::default().color
}

impl Default for TextFormat {
    fn default() -> (format: TextFormat)
        ensures
            format == default_format(),
    {
        TextFormat {
            color: default_format_color(),
            background: None,
            italics: false,
            underline: None,
        }
    }
}

/// A run of text: the bytes from `start` up to `end`, drawn in `format`.
#[derive(Clone, Copy, Debug, PartialEq)]
pub struct TextSection {
    pub start: usize,
    pub end: usize,
    pub format: TextFormat,
}

/// Text in runs, each run with its format.
#[derive(Clone, Debug)]
pub struct LayoutJob {
    /// The whole text, in UTF-8.
    pub text: Vec<u8>,
    /// The runs, in the order of the text.
    pub sections: Vec<TextSection>,
}

/// A `LayoutJob` as a mathematical value.
pub struct JobView {
    pub text: Seq<u8>,
    pub sections: Seq<TextSection>,
}

impl View for LayoutJob {
    type V = JobView;

    open spec fn view(&self) -> JobView {
        JobView { text: self.text@, sections: self.sections@ }
    }
}

/// The job that holds no text.
pub open spec fn empty_job() -> JobView {
    JobView { text: Seq::empty(), sections: Seq::empty() }
}

/// `job` with one more run, which holds `text` and is drawn in `format`.
pub open spec fn appended(job: JobView, text: Seq<u8>, format: TextFormat) -> JobView {
    JobView {
        text: job.text + text,
        sections: job.sections.push(
            TextSection {
                start: job.text.len() as usize,
                end: (job.text.len() + text.len()) as usize,
                format,
            },
        ),
    }
}

/// Whether every run of `job` lies within its text.
pub open spec fn job_wf(job: JobView) -> bool {
    forall|k: int|
        0 <= k < job.sections.len() ==> (#[trigger] job.sections[k]).start <= job.sections[k].end
            <= job.text.len()
}

impl LayoutJob {
    /// The job that holds no text.
    pub fn new() -> (job: LayoutJob)
        ensures
            job@ == empty_job(),
    {
        LayoutJob { text: Vec::new(), sections: Vec::new() }
    }

    /// Appends `text` as a run of its own, drawn in `format`.
    pub fn append(&mut self, text: &[u8], format: TextFormat)
        requires
            job_wf(old(self)@),
        ensures
            final(self)@ == appended(old(self)@, text@, format),
            job_wf(final(self)@),
    {
        let start = self.text.len();
        write_all(&mut self.text, text);
        let end = self.text.len();
        self.sections.push(TextSection { start, end, format });
        proof {
            assert forall|k: int| 0 <= k < self@.sections.len() implies (
            #[trigger] self@.sections[k]).start <= self@.sections[k].end <= self@.text.len() by {
                if k < old(self)@.sections.len() {
                    assert(self@.sections[k] == old(self)@.sections[k]);
                }
            }
        }
    }
}

/// What `String::from_utf8_lossy` makes of `bytes`, as UTF-8: `bytes` with
/// each part that is no UTF-8 replaced by the replacement character.
pub uninterp spec fn utf8_lossy(bytes: Seq<u8>) -> Seq<u8>;

/// `String::from_utf8_lossy`: the bytes of the string that it returns.
/// Bytes that are valid UTF-8 come back as they are.
#[verifier::external_body]
fn from_utf8_lossy(bytes: &[u8]) -> (text: Vec<u8>)
    ensures
        text@ == utf8_lossy(bytes@),
        vstd::utf8::valid_utf8(bytes@) ==> text@ == bytes@,
{
    String::from_utf8_lossy(bytes).into_owned().into_bytes()
}

/// The UTF-8 text that stands for `bytes`: `bytes` itself where it is
/// valid UTF-8, and otherwise `bytes` with each invalid part replaced by
/// the replacement character.
pub open spec fn text_of(bytes: Seq<u8>) -> Seq<u8> {
    if vstd::utf8::valid_utf8(bytes) {
        bytes
    } else {
        utf8_lossy(bytes)
    }
}

/// The text of `bytes` as a fresh vector.
fn lossy_text(bytes: &[u8]) -> (text: Vec<u8>)
    ensures
        text@ == text_of(bytes@),
{
    from_utf8_lossy(bytes)
}

/// Whether the colors of `style` can be drawn.
pub open spec fn drawable_style(style: Style) -> bool {
    &&& style.fg is Some ==> is_drawable(style.fg.unwrap())
    &&& style.bg is Some ==> is_drawable(style.bg.unwrap())
}

/// Whether the colors of every rule can be drawn.
pub open spec fn drawable_rules(rules: Seq<RuleView>) -> bool {
    forall|i: int| 0 <= i < rules.len() ==> drawable_style((#[trigger] rules[i]).style)
}

/// Rules whose colors can be drawn resolve to a style whose colors can be
/// drawn.
pub proof fn lemma_resolved_drawable(rules: Seq<RuleView>, stack: Seq<Seq<char>>)
    requires
        drawable_rules(rules),
    ensures
        drawable_style(resolved(rules, stack)),
{
    if exists|i: int| prevails(rules, stack, Field::Fg, i) {
        let i = choose|i: int| prevails(rules, stack, Field::Fg, i);
        assert(drawable_style(rules[i].style));
    }
    if exists|i: int| prevails(rules, stack, Field::Bg, i) {
        let i = choose|i: int| prevails(rules, stack, Field::Bg, i);
        assert(drawable_style(rules[i].style));
    }
}

fn drawable_color(color: Option<Color>) -> (drawable: bool)
    ensures
        drawable == (color is Some ==> is_drawable(color.unwrap())),
{
    match color {
        Some(Color::AnsiValue(_)) => false,
        _ => true,
    }
}

/// Whether the colors of every rule can be drawn.
pub fn rules_are_drawable(rules: &Rules) -> (drawable: bool)
    ensures
        drawable == drawable_rules(rules_view(rules@)),
{
    let mut i: usize = 0;
    while i < rules.len()
        invariant
            0 <= i <= rules@.len(),
            forall|k: int| 0 <= k < i ==> drawable_style((#[trigger] rules_view(rules@)[k]).style),
        decreases rules@.len() - i,
    {
        if !drawable_color(rules[i].1.fg) || !drawable_color(rules[i].1.bg) {
            proof {
                assert(!drawable_style(rules_view(rules@)[i as int].style));
            }
            return false;
        }
        i = i + 1;
    }
    true
}

/// The labels of a stack in one line, with a space between two labels.
pub open spec fn joined_labels(labels: Seq<Seq<char>>) -> Seq<char>
    decreases labels.len(),
{
    if labels.len() == 0 {
        Seq::empty()
    } else if labels.len() == 1 {
        labels[0]
    } else {
        joined_labels(labels.drop_last()) + " "@ + labels.last()
    }
}

fn join_labels(labels: &Vec<String>) -> (joined: String)
    ensures
        joined@ == joined_labels(labels_view(labels@)),
{
    let ghost stack = labels_view(labels@);
    let mut joined = String::new();
    let mut i: usize = 0;
    proof {
        assert(stack.take(0) =~= Seq::<Seq<char>>::empty());
    }
    while i < labels.len()
        invariant
            0 <= i <= labels@.len(),
            stack == labels_view(labels@),
            joined@ == joined_labels(stack.take(i as int)),
        decreases labels@.len() - i,
    {
        proof {
            assert(stack.take(i + 1).drop_last() =~= stack.take(i as int));
            assert(stack.take(i + 1).last() == labels@[i as int]@);
        }
        if i > 0 {
            joined.append(" ");
        }
        joined.append(labels[i].as_str());
        proof {
            if i == 0 {
                assert(joined@ =~= labels@[0]@);
                assert(stack.take(1)[0] == labels@[0]@);
            }
        }
        i = i + 1;
    }
    proof {
        assert(stack.take(i as int) =~= stack);
    }
    joined
}

fn same_labels(a: &Vec<String>, b: &Vec<String>) -> (same: bool)
    ensures
        same == (labels_view(a@) == labels_view(b@)),
{
    if a.len() != b.len() {
        proof {
            assert(labels_view(a@).len() != labels_view(b@).len());
        }
        return false;
    }
    let mut i: usize = 0;
    while i < a.len()
        invariant
            0 <= i <= a@.len(),
            a@.len() == b@.len(),
            forall|k: int| 0 <= k < i ==> (#[trigger] a@[k])@ == b@[k]@,
        decreases a@.len() - i,
    {
        if a[i] != b[i] {
            proof {
                assert(labels_view(a@)[i as int] != labels_view(b@)[i as int]);
            }
            return false;
        }
        i = i + 1;
    }
    proof {
        assert(labels_view(a@) =~= labels_view(b@));
    }
    true
}

fn clone_labels(labels: &Vec<String>) -> (copy: Vec<String>)
    ensures
        labels_view(copy@) == labels_view(labels@),
{
    let mut copy: Vec<String> = Vec::new();
    let mut i: usize = 0;
    while i < labels.len()
        invariant
            0 <= i <= labels@.len(),
            copy@.len() == i,
            forall|k: int| 0 <= k < i ==> (#[trigger] copy@[k])@ == labels@[k]@,
        decreases labels@.len() - i,
    {
        copy.push(labels[i].clone());
        i = i + 1;
    }
    proof {
        assert(labels_view(copy@) =~= labels_view(labels@));
    }
    copy
}

/// The format that text gets when the style changes from `current` to
/// `style`, having been drawn in `format`.
///
/// Bold text is not drawn differently, but when bold is switched off the
/// format starts again from the default. Then each attribute that differs
/// is applied by itself: italics, the line under the text in the default
/// color, the color of the text, and the color behind it.
pub open spec fn restyled(format: TextFormat, current: Style, style: Style) -> TextFormat {
    let reset = style.bold != current.bold && style.bold != Some(true);
    let from = if reset {
        unset()
    } else {
        current
    };
    let base = if reset {
        default_format()
    } else {
        format
    };
    TextFormat {
        color: if style.fg != from.fg {
            drawn(style.fg)
        } else {
            base.color
        },
        background: if style.bg != from.bg {
            drawn_behind(style.bg)
        } else {
            base.background
        },
        italics: if style.italic != from.italic {
            style.italic == Some(true)
        } else {
            base.italics
        },
        underline: if style.underline != from.underline {
            if style.underline == Some(true) {
                Some(default_color_spec())
            } else {
                None
            }
        } else {
            base.underline
        },
    }
}

/// The color that text is drawn in: the default color where the
/// foreground is open.
pub open spec fn drawn(color: Option<Color>) -> Color32 {
    match color {
        Some(c) => color_to_egui_spec(c),
        None => default_color_spec(),
    }
}

/// The color that is drawn behind text: none where the background is open
/// or is reset.
pub open spec fn drawn_behind(color: Option<Color>) -> Option<Color32> {
    match color {
        Some(Color::Reset) => None,
        Some(c) => Some(color_to_egui_spec(c)),
        None => None,
    }
}

/// The attributes of a format are set one by one. A change of the
/// background alone leaves the color of the text, the italics and the line
/// under the text as they were, and a change of the foreground alone
/// leaves the background as it was.
pub proof fn lemma_restyled_by_attribute(format: TextFormat, current: Style, style: Style)
    requires
        style.bold == current.bold,
    ensures
        style.fg == current.fg ==> restyled(format, current, style).color == format.color,
        style.bg == current.bg ==> restyled(format, current, style).background
            == format.background,
        style.italic == current.italic ==> restyled(format, current, style).italics
            == format.italics,
        style.underline == current.underline ==> restyled(format, current, style).underline
            == format.underline,
        style.fg != current.fg ==> restyled(format, current, style).color == drawn(style.fg),
        style.bg != current.bg ==> restyled(format, current, style).background == drawn_behind(
            style.bg,
        ),
{
}

fn draw(color: Option<Color>) -> (drawn_color: Color32)
    requires
        color is Some ==> is_drawable(color.unwrap()),
    ensures
        drawn_color == drawn(color),
{
    match color {
        Some(c) => color_to_egui(c),
        None => default_color(),
    }
}

fn draw_behind(color: Option<Color>) -> (drawn_color: Option<Color32>)
    requires
        color is Some ==> is_drawable(color.unwrap()),
    ensures
        drawn_color == drawn_behind(color),
{
    match color {
        Some(Color::Reset) => None,
        Some(c) => Some(color_to_egui(c)),
        None => None,
    }
}

fn differs_color(a: Option<Color>, b: Option<Color>) -> (differ: bool)
    ensures
        differ == (a != b),
{
    match (a, b) {
        (None, None) => false,
        (Some(x), Some(y)) => x != y,
        _ => true,
    }
}

fn differs_flag(a: Option<bool>, b: Option<bool>) -> (differ: bool)
    ensures
        differ == (a != b),
{
    match (a, b) {
        (None, None) => false,
        (Some(x), Some(y)) => x != y,
        _ => true,
    }
}

fn is_set(flag: Option<bool>) -> (set: bool)
    ensures
        set == (flag == Some(true)),
{
    match flag {
        Some(b) => b,
        None => false,
    }
}

/// The format once the style has changed from `current` to `style`.
fn apply_style(format: TextFormat, current: Style, style: Style) -> (next: TextFormat)
    requires
        drawable_style(style),
    ensures
        next == restyled(format, current, style),
{
    let mut format = format;
    let mut current = current;
    if differs_flag(style.bold, current.bold) {
        if !is_set(style.bold) {
            // Switching bold off starts the format again, so that the
            // other attributes are applied anew below.
            current = Style::default();
            format = TextFormat::default();
        }
    }
    if differs_flag(style.italic, current.italic) {
        format.italics = is_set(style.italic);
    }
    if differs_flag(style.underline, current.underline) {
        if is_set(style.underline) {
            format.underline = Some(default_color());
        } else {
            format.underline = None;
        }
    }
    if differs_color(style.fg, current.fg) {
        format.color = draw(style.fg);
    }
    if differs_color(style.bg, current.bg) {
        format.background = draw_behind(style.bg);
    }
    format
}

/// The writer. It holds the runs written so far, the bytes of the run
/// that is being written, the stack of open labels, and the style that
/// the run is written in.
#[derive(Clone, Debug)]
pub struct ColorFormatter {
    egui_output: LayoutJob,
    egui_format: TextFormat,
    output: Vec<u8>,
    rules: Arc<Rules>,
    /// The stack of open labels. These decide the style.
    labels: Vec<String>,
    /// The styles resolved so far, each with the stack that it belongs to.
    cached_styles: Vec<(Vec<String>, Style)>,
    /// The style that was applied last.
    current_style: Style,
    /// The labels, joined, that were announced last; `None` where labels
    /// are not announced.
    current_debug: Option<String>,
}

/// The state of a writer as a mathematical value.
pub struct FormatterView {
    /// The runs that are closed.
    pub job: JobView,
    /// The format of the run that is being written.
    pub format: TextFormat,
    /// The bytes of the run that is being written.
    pub output: Seq<u8>,
    pub rules: Seq<RuleView>,
    pub labels: Seq<Seq<char>>,
    /// The stacks whose style is kept.
    pub cached: Set<Seq<Seq<char>>>,
    pub current_style: Style,
    pub current_debug: Option<Seq<char>>,
}

/// The stacks that `cache` holds a style for.
pub open spec fn cached_stacks(cache: Seq<(Vec<String>, Style)>) -> Set<Seq<Seq<char>>> {
    Set::new(
        |stack: Seq<Seq<char>>|
            exists|i: int| 0 <= i < cache.len() && labels_view((#[trigger] cache[i]).0@) == stack,
    )
}

/// The state once the style of the stack is kept.
pub open spec fn with_cached(s: FormatterView) -> FormatterView {
    FormatterView { cached: s.cached.insert(s.labels), ..s }
}

/// Asking for the style of a stack a second time changes nothing: the
/// style is kept after the first time.
pub proof fn lemma_cached_again(s: FormatterView)
    ensures
        with_cached(s).cached.contains(s.labels),
        with_cached(with_cached(s)) == with_cached(s),
        s.cached.contains(s.labels) ==> with_cached(s) == s,
{
    assert(s.cached.insert(s.labels).insert(s.labels) =~= s.cached.insert(s.labels));
    if s.cached.contains(s.labels) {
        assert(s.cached.insert(s.labels) =~= s.cached);
    }
}

/// The state of a writer that was just made.
pub open spec fn initial(rules: Seq<RuleView>, debug: bool) -> FormatterView {
    FormatterView {
        job: empty_job(),
        format: default_format(),
        output: Seq::empty(),
        rules,
        labels: Seq::empty(),
        cached: Set::empty(),
        current_style: unset(),
        current_debug: if debug {
            Some(Seq::empty())
        } else {
            None
        },
    }
}

/// The state once the run that is being written is closed. A run without
/// bytes is not kept.
pub open spec fn flushed(s: FormatterView) -> FormatterView {
    if s.output.len() == 0 {
        s
    } else {
        FormatterView {
            job: appended(s.job, text_of(s.output), s.format),
            output: Seq::empty(),
            ..s
        }
    }
}

/// Whether the labels are announced anew: they are announced at all, and
/// the stack reads otherwise than what was announced last.
pub open spec fn announces(s: FormatterView) -> bool {
    s.current_debug is Some && s.current_debug.unwrap() != joined_labels(s.labels)
}

/// The mark that closes the labels announced last, where there were any.
pub open spec fn closing_mark(s: FormatterView) -> Seq<u8> {
    if announces(s) && s.current_debug.unwrap().len() > 0 {
        ">>".spec_bytes()
    } else {
        Seq::empty()
    }
}

/// The mark that announces the labels of the stack, where there are any.
pub open spec fn opening_mark(s: FormatterView) -> Seq<u8> {
    if announces(s) && joined_labels(s.labels).len() > 0 {
        "<<".spec_bytes() + vstd::utf8::encode_utf8(joined_labels(s.labels)) + "::".spec_bytes()
    } else {
        Seq::empty()
    }
}

/// The state once the style of the stack is applied: the run written so
/// far is closed, the labels are announced where they changed, and the
/// format follows the change of style. The marks are separate writes, the
/// closing one before the style changes and the opening one after.
pub open spec fn restyle(s: FormatterView) -> FormatterView {
    let closed = flushed(s);
    let style = resolved(s.rules, s.labels);
    FormatterView {
        output: closed.output + closing_mark(s) + opening_mark(s),
        format: if style != s.current_style {
            restyled(s.format, s.current_style, style)
        } else {
            s.format
        },
        cached: s.cached.insert(s.labels),
        current_style: style,
        current_debug: if announces(s) {
            Some(joined_labels(s.labels))
        } else {
            s.current_debug
        },
        ..closed
    }
}

/// Whether the style of the stack can be applied: its colors can be
/// drawn.
pub open spec fn restylable(s: FormatterView) -> bool {
    drawable_style(resolved(s.rules, s.labels))
}

/// Whether the style of the empty stack can be applied.
pub open spec fn clearable(s: FormatterView) -> bool {
    drawable_style(resolved(s.rules, Seq::empty()))
}

/// Whether `data` can be written: the style of the stack can be applied
/// if there is anything to write, and so can the style of the empty stack
/// if a line break is among it.
pub open spec fn writable(s: FormatterView, data: Seq<u8>) -> bool {
    &&& data.len() > 0 ==> restylable(s)
    &&& data.contains(NEWLINE) ==> clearable(s)
}

/// Whether the label opened last can be closed: the style of the empty
/// stack can be applied if the stack is empty afterwards.
pub open spec fn poppable(s: FormatterView) -> bool {
    s.labels.len() <= 1 ==> clearable(s)
}

/// Where the colors of every rule can be drawn, every style can be
/// applied: whatever the stack, text can be written and labels closed.
pub proof fn lemma_drawable_rules_suffice(s: FormatterView, data: Seq<u8>)
    requires
        drawable_rules(s.rules),
    ensures
        restylable(s),
        clearable(s),
        writable(s, data),
        poppable(s),
{
    lemma_resolved_drawable(s.rules, s.labels);
    lemma_resolved_drawable(s.rules, Seq::empty());
}

/// Whether the colors of `style` can be drawn.
pub fn style_is_drawable(style: &Style) -> (drawable: bool)
    ensures
        drawable == drawable_style(*style),
{
    drawable_color(style.fg) && drawable_color(style.bg)
}

impl View for ColorFormatter {
    type V = FormatterView;

    closed spec fn view(&self) -> FormatterView {
        FormatterView {
            job: self.egui_output@,
            format: self.egui_format,
            output: self.output@,
            rules: rules_view(self.rules@),
            labels: labels_view(self.labels@),
            cached: cached_stacks(self.cached_styles@),
            current_style: self.current_style,
            current_debug: match self.current_debug {
                Some(d) => Some(d@),
                None => None,
            },
        }
    }
}

impl ColorFormatter {
    /// Whether the writer is in order: every style that it keeps is the
    /// style that the rules give the stack kept with it, and every run
    /// lies within the text.
    pub closed spec fn wf(&self) -> bool {
        &&& job_wf(self.egui_output@)
        &&& forall|i: int|
            0 <= i < self.cached_styles@.len() ==> (#[trigger] self.cached_styles@[i]).1
                == resolved(rules_view(self.rules@), labels_view(self.cached_styles@[i].0@))
    }

    /// A writer for `rules` that holds no text and has no label open.
    /// With `debug`, the writer announces the labels in the text. The
    /// rules are taken as they are.
    pub fn new(rules: Arc<Rules>, debug: bool) -> (formatter: ColorFormatter)
        ensures
            formatter.wf(),
            formatter@ == initial(rules_view(rules@), debug),
    {
        let formatter = ColorFormatter {
            egui_output: LayoutJob::new(),
            egui_format: TextFormat::default(),
            output: Vec::new(),
            rules,
            labels: Vec::new(),
            cached_styles: Vec::new(),
            current_style: Style::default(),
            current_debug: if debug {
                Some(String::new())
            } else {
                None
            },
        };
        proof {
            assert(labels_view(formatter.labels@) =~= Seq::<Seq<char>>::empty());
            assert(cached_stacks(formatter.cached_styles@) =~= Set::<Seq<Seq<char>>>::empty());
        }
        formatter
    }

    /// The style that the rules give the stack of open labels. It is
    /// resolved once for each stack and kept: asking again for a stack
    /// whose style is kept changes nothing.
    pub fn requested_style(&mut self) -> (style: Style)
        requires
            old(self).wf(),
        ensures
            final(self).wf(),
            style == resolved(old(self)@.rules, old(self)@.labels),
            final(self)@ == with_cached(old(self)@),
            final(self)@.cached.contains(old(self)@.labels),
            old(self)@.cached.contains(old(self)@.labels) ==> final(self)@ == old(self)@,
    {
        let ghost stack = labels_view(self.labels@);
        let mut i: usize = 0;
        while i < self.cached_styles.len()
            invariant
                0 <= i <= self.cached_styles@.len(),
                self == old(self),
                self.wf(),
                stack == labels_view(self.labels@),
                forall|k: int|
                    0 <= k < i ==> labels_view((#[trigger] self.cached_styles@[k]).0@) != stack,
            decreases self.cached_styles@.len() - i,
        {
            if same_labels(&self.cached_styles[i].0, &self.labels) {
                proof {
                    assert(self@.cached.contains(stack));
                    assert(self@.cached.insert(stack) =~= self@.cached);
                }
                return self.cached_styles[i].1;
            }
            i = i + 1;
        }
        let style = resolve(&self.labels, &self.rules);
        let ghost was = self.cached_styles@;
        self.cached_styles.push((clone_labels(&self.labels), style));
        proof {
            let now = self.cached_styles@;
            assert(!old(self)@.cached.contains(stack));
            assert forall|k: Seq<Seq<char>>| cached_stacks(now).contains(k) <==> cached_stacks(
                was,
            ).insert(stack).contains(k) by {
                if cached_stacks(now).contains(k) {
                    let a = choose|a: int|
                        0 <= a < now.len() && labels_view((#[trigger] now[a]).0@) == k;
                    if a < was.len() {
                        assert(now[a] == was[a]);
                    }
                }
                if cached_stacks(was).contains(k) {
                    let a = choose|a: int|
                        0 <= a < was.len() && labels_view((#[trigger] was[a]).0@) == k;
                    assert(now[a] == was[a]);
                }
                if k == stack {
                    assert(labels_view(now[was.len() as int].0@) == k);
                }
            }
            assert(cached_stacks(now) =~= cached_stacks(was).insert(stack));
            assert forall|a: int| 0 <= a < now.len() implies (#[trigger] now[a]).1 == resolved(
                rules_view(self.rules@),
                labels_view(now[a].0@),
            ) by {
                if a < was.len() {
                    assert(now[a] == was[a]);
                }
            }
        }
        style
    }

    /// Closes the run that is being written, if it holds any bytes.
    fn flush_to_egui(&mut self)
        requires
            old(self).wf(),
        ensures
            final(self).wf(),
            final(self)@ == flushed(old(self)@),
    {
        if self.output.len() == 0 {
            return ;
        }
        let out = lossy_text(self.output.as_slice());
        self.egui_output.append(out.as_slice(), self.egui_format);
        self.output.clear();
    }

    /// Applies the style of the stack of open labels.
    fn write_new_style(&mut self)
        requires
            old(self).wf(),
            restylable(old(self)@),
        ensures
            final(self).wf(),
            final(self)@ == restyle(old(self)@),
    {
        self.flush_to_egui();
        let ghost closed = self@;
        let new_debug = match &self.current_debug {
            Some(current) => {
                let joined = join_labels(&self.labels);
                if joined == *current {
                    None
                } else {
                    if !current.as_str().is_empty() {
                        write_all(&mut self.output, ">>".as_bytes());
                    }
                    Some(joined)
                }
            },
            None => None,
        };
        proof {
            assert(new_debug is Some <==> announces(old(self)@));
            assert(self.output@ =~= closed.output + closing_mark(old(self)@));
        }
        let new_style = self.requested_style();
        if !new_style.same(&self.current_style) {
            self.egui_format = apply_style(self.egui_format, self.current_style, new_style);
            self.current_style = new_style;
        }
        let ghost marked = self.output@;
        if let Some(d) = new_debug {
            if !d.as_str().is_empty() {
                write_all(&mut self.output, "<<".as_bytes());
                write_all(&mut self.output, d.as_str().as_bytes());
                write_all(&mut self.output, "::".as_bytes());
            }
            self.current_debug = Some(d);
        }
        proof {
            assert(self.output@ =~= marked + opening_mark(old(self)@));
            assert(self@.output =~= restyle(old(self)@).output);
            assert(self@.cached =~= restyle(old(self)@).cached);
        }
    }
}

/// The line break.
pub const NEWLINE: u8 = 0x0a;

/// Where the line that starts at `from` ends: behind its line break, or at
/// the end of `data` if it has none.
pub open spec fn line_end(data: Seq<u8>, from: int) -> int
    decreases data.len() - from,
{
    if from < 0 || from >= data.len() {
        data.len() as int
    } else if data[from] == NEWLINE {
        from + 1
    } else {
        line_end(data, from + 1)
    }
}

/// A line ends behind its start and within the data.
pub proof fn lemma_line_end_bounds(data: Seq<u8>, from: int)
    requires
        0 <= from < data.len(),
    ensures
        from < line_end(data, from) <= data.len(),
        line_end(data, from) < data.len() ==> data[line_end(data, from) - 1] == NEWLINE,
        forall|i: int| from <= i < line_end(data, from) - 1 ==> #[trigger] data[i] != NEWLINE,
    decreases data.len() - from,
{
    reveal_with_fuel(line_end, 2);
    if data[from] != NEWLINE && from + 1 < data.len() {
        lemma_line_end_bounds(data, from + 1);
    }
}

/// The state once `bytes` are added to the run that is being written.
pub open spec fn with_output(s: FormatterView, bytes: Seq<u8>) -> FormatterView {
    FormatterView { output: s.output + bytes, ..s }
}

/// The state with another stack of labels.
pub open spec fn with_labels(s: FormatterView, labels: Seq<Seq<char>>) -> FormatterView {
    FormatterView { labels, ..s }
}

/// The state once one line is written. The text of the line is written
/// sanitised in the style of the stack. A line break is written by itself
/// in the style of the empty stack, and the stack is as before afterwards.
pub open spec fn written_line(s: FormatterView, line: Seq<u8>) -> FormatterView {
    if line.len() > 0 && line.last() == NEWLINE {
        let body = with_output(restyle(s), sanitized(line.drop_last()));
        let cleared = restyle(with_labels(body, Seq::empty()));
        with_labels(with_output(cleared, seq![NEWLINE]), s.labels)
    } else {
        with_output(restyle(s), sanitized(line))
    }
}

/// Every line is styled by itself. Where labels are not announced, once a
/// line with its line break is written, the text of the line is closed as
/// a run of its own in the format of the stack, the run that is being
/// written holds the line break alone, in the style of the empty stack,
/// and the stack is as it was.
pub proof fn lemma_line_break_closes_run(s: FormatterView, body: Seq<u8>)
    requires
        s.current_debug is None,
    ensures
        ({
            let after = written_line(s, body.push(NEWLINE));
            &&& after.output == seq![NEWLINE]
            &&& after.labels == s.labels
            &&& after.current_style == resolved(s.rules, Seq::empty())
            &&& body.len() > 0 ==> after.job == appended(
                flushed(s).job,
                text_of(sanitized(body)),
                restyle(s).format,
            )
            &&& body.len() == 0 ==> after.job == flushed(s).job
        }),
{
    let line = body.push(NEWLINE);
    assert(line.drop_last() =~= body);
    lemma_sanitized_len(body);
    let styled = restyle(s);
    assert(styled.output =~= Seq::<u8>::empty());
    let with_body = with_output(styled, sanitized(body));
    assert(with_body.output =~= sanitized(body));
    let cleared = restyle(with_labels(with_body, Seq::empty()));
    assert(cleared.output =~= Seq::<u8>::empty());
    assert(written_line(s, line).output =~= seq![NEWLINE]);
}

/// The state once the lines of `data` from `from` on are written, one
/// after the other. A line ends behind its start and within the data, so
/// the lines are written up to the end of the data.
pub open spec fn written_from(s: FormatterView, data: Seq<u8>, from: int) -> FormatterView
    decreases data.len() - from,
{
    if from < 0 || from >= data.len() {
        s
    } else {
        let end = line_end(data, from);
        if end <= from || end > data.len() {
            s
        } else {
            written_from(written_line(s, data.subrange(from, end)), data, end)
        }
    }
}

/// The state once `data` is written, line by line.
pub open spec fn written(s: FormatterView, data: Seq<u8>) -> FormatterView {
    written_from(s, data, 0)
}

/// The state once raw bytes are written: the style of the stack is
/// applied, and the bytes follow as they are.
pub open spec fn written_raw(s: FormatterView, data: Seq<u8>) -> FormatterView {
    with_output(restyle(s), data)
}

/// The state once a label is opened.
pub open spec fn pushed(s: FormatterView, label: Seq<char>) -> FormatterView {
    with_labels(s, s.labels.push(label))
}

/// The state once the label opened last is closed. Where no label is
/// open the stack stays empty. When the stack is empty afterwards, its
/// style is applied.
pub open spec fn popped(s: FormatterView) -> FormatterView {
    let labels = if s.labels.len() > 0 {
        s.labels.drop_last()
    } else {
        s.labels
    };
    if labels.len() == 0 {
        restyle(with_labels(s, labels))
    } else {
        with_labels(s, labels)
    }
}

/// The state once the writer is finished: every label is closed and the
/// style of the empty stack is applied.
pub open spec fn finished(s: FormatterView) -> FormatterView {
    restyle(with_labels(s, Seq::empty()))
}

/// Whether the last run of `job` is a line break by itself at the end of
/// the text.
pub open spec fn ends_in_line_break_run(job: JobView) -> bool {
    &&& job.sections.len() > 0
    &&& job.text.len() > 0
    &&& job.text.last() == NEWLINE
    &&& job.sections.last().end - job.sections.last().start == 1
}

/// The job that is handed out: the runs written so far, without the last
/// run where that is a line break by itself at the end of the text.
pub open spec fn taken_job(s: FormatterView) -> JobView {
    let job = flushed(s).job;
    if ends_in_line_break_run(job) {
        JobView { sections: job.sections.drop_last(), ..job }
    } else {
        job
    }
}

/// The state once the job is handed out: no runs are left, and format and
/// style start again.
pub open spec fn taken(s: FormatterView) -> FormatterView {
    FormatterView {
        job: empty_job(),
        format: default_format(),
        current_style: unset(),
        ..flushed(s)
    }
}

/// The end of the line that starts at `from`.
fn find_line_end(data: &[u8], from: usize) -> (end: usize)
    requires
        from < data@.len(),
    ensures
        end == line_end(data@, from as int),
        from < end <= data@.len(),
{
    let mut end: usize = from;
    while end < data.len() && data[end] != NEWLINE
        invariant
            from <= end <= data@.len(),
            line_end(data@, from as int) == line_end(data@, end as int),
        decreases data@.len() - end,
    {
        end = end + 1;
    }
    if end < data.len() {
        end + 1
    } else {
        end
    }
}

/// The bytes of `data` from `from` up to `end`.
fn slice_of(data: &[u8], from: usize, end: usize) -> (part: Vec<u8>)
    requires
        from <= end <= data@.len(),
    ensures
        part@ == data@.subrange(from as int, end as int),
{
    let mut part: Vec<u8> = Vec::new();
    let mut i: usize = from;
    while i < end
        invariant
            from <= i <= end <= data@.len(),
            part@ == data@.subrange(from as int, i as int),
        decreases end - i,
    {
        part.push(data[i]);
        i = i + 1;
        proof {
            assert(part@ =~= data@.subrange(from as int, i as int));
        }
    }
    part
}

impl ColorFormatter {
    /// Whether the style of the stack can be applied.
    pub fn can_restyle(&self) -> (can: bool)
        ensures
            can == restylable(self@),
    {
        let style = resolve(&self.labels, &self.rules);
        style_is_drawable(&style)
    }

    /// Whether the style of the empty stack can be applied.
    pub fn can_clear(&self) -> (can: bool)
        ensures
            can == clearable(self@),
    {
        let labels: Vec<String> = Vec::new();
        proof {
            assert(labels_view(labels@) =~= Seq::<Seq<char>>::empty());
        }
        let style = resolve(&labels, &self.rules);
        style_is_drawable(&style)
    }

    /// Whether `data` can be written.
    pub fn can_write(&self, data: &[u8]) -> (can: bool)
        ensures
            can == writable(self@, data@),
    {
        if data.len() == 0 {
            proof {
                assert(!data@.contains(NEWLINE));
            }
            return true;
        }
        if !self.can_restyle() {
            return false;
        }
        let mut i: usize = 0;
        while i < data.len()
            invariant
                0 <= i <= data@.len(),
                restylable(self@),
                forall|k: int| 0 <= k < i ==> data@[k] != NEWLINE,
            decreases data@.len() - i,
        {
            if data[i] == NEWLINE {
                proof {
                    assert(data@.contains(NEWLINE));
                }
                return self.can_clear();
            }
            i = i + 1;
        }
        proof {
            if data@.contains(NEWLINE) {
                let k = choose|k: int| 0 <= k < data@.len() && data@[k] == NEWLINE;
                assert(data@[k] != NEWLINE);
            }
        }
        true
    }

    /// Whether the label opened last can be closed.
    pub fn can_pop_label(&self) -> (can: bool)
        ensures
            can == poppable(self@),
    {
        proof {
            assert(self@.labels.len() == self.labels@.len());
        }
        if self.labels.len() <= 1 {
            self.can_clear()
        } else {
            true
        }
    }

    /// Writes one line: its text, and its line break if it has one.
    fn write_line(&mut self, line: &[u8])
        requires
            old(self).wf(),
            line@.len() > 0,
            restylable(old(self)@),
            line@.last() == NEWLINE ==> clearable(old(self)@),
        ensures
            final(self).wf(),
            final(self)@ == written_line(old(self)@, line@),
    {
        if line[line.len() - 1] == NEWLINE {
            self.write_new_style();
            let body = slice_of(line, 0, line.len() - 1);
            proof {
                assert(body@ =~= line@.drop_last());
            }
            write_sanitized(&mut self.output, body.as_slice());
            let mut labels: Vec<String> = Vec::new();
            std::mem::swap(&mut labels, &mut self.labels);
            proof {
                assert(labels_view(self.labels@) =~= Seq::<Seq<char>>::empty());
            }
            self.write_new_style();
            self.output.push(NEWLINE);
            self.labels = labels;
            proof {
                let body_state = with_output(restyle(old(self)@), sanitized(line@.drop_last()));
                let cleared = restyle(with_labels(body_state, Seq::empty()));
                assert(self@.output =~= cleared.output + seq![NEWLINE]);
            }
        } else {
            self.write_new_style();
            write_sanitized(&mut self.output, line);
        }
    }

    /// Writes `data`, line by line, and returns how many bytes were taken:
    /// all of them. The styles that the lines are written in must be
    /// styles whose colors can be drawn.
    pub fn write(&mut self, data: &[u8]) -> (count: usize)
        requires
            old(self).wf(),
            writable(old(self)@, data@),
        ensures
            final(self).wf(),
            final(self)@ == written(old(self)@, data@),
            count == data@.len(),
    {
        let mut from: usize = 0;
        while from < data.len()
            invariant
                0 <= from <= data@.len(),
                self.wf(),
                self@.labels == old(self)@.labels,
                self@.rules == old(self)@.rules,
                writable(old(self)@, data@),
                written(old(self)@, data@) == written_from(self@, data@, from as int),
            decreases data@.len() - from,
        {
            let end = find_line_end(data, from);
            let line = slice_of(data, from, end);
            proof {
                assert(line@.last() == data@[end - 1]);
            }
            self.write_line(line.as_slice());
            from = end;
        }
        data.len()
    }

    /// Closes the run that is being written.
    pub fn flush(&mut self)
        requires
            old(self).wf(),
        ensures
            final(self).wf(),
            final(self)@ == flushed(old(self)@),
    {
        self.flush_to_egui();
    }

    /// Gets ready for raw bytes: applies the style of the stack, whose
    /// colors must be colors that can be drawn.
    pub fn raw(&mut self)
        requires
            old(self).wf(),
            restylable(old(self)@),
        ensures
            final(self).wf(),
            final(self)@ == restyle(old(self)@),
    {
        self.write_new_style();
    }

    /// Writes `data` as it is into the run that is being written.
    pub fn write_raw(&mut self, data: &[u8])
        requires
            old(self).wf(),
        ensures
            final(self).wf(),
            final(self)@ == with_output(old(self)@, data@),
    {
        write_all(&mut self.output, data);
    }

    /// Opens a label.
    pub fn push_label(&mut self, label: &str)
        requires
            old(self).wf(),
        ensures
            final(self).wf(),
            final(self)@ == pushed(old(self)@, label@),
    {
        self.labels.push(label.to_owned());
        proof {
            assert(labels_view(self.labels@) =~= labels_view(old(self).labels@).push(label@));
        }
    }

    /// Closes the label that was opened last. Closing a label where none
    /// is open leaves the stack empty. Where the stack is empty afterwards
    /// its style is applied, so its colors must be colors that can be
    /// drawn.
    pub fn pop_label(&mut self)
        requires
            old(self).wf(),
            poppable(old(self)@),
        ensures
            final(self).wf(),
            final(self)@ == popped(old(self)@),
    {
        self.labels.pop();
        proof {
            assert(labels_view(old(self).labels@).len() == old(self).labels@.len());
            if old(self).labels@.len() > 0 {
                assert(labels_view(self.labels@) =~= labels_view(old(self).labels@).drop_last());
            }
        }
        if self.labels.len() == 0 {
            proof {
                assert(labels_view(self.labels@) =~= Seq::<Seq<char>>::empty());
            }
            self.write_new_style();
        }
    }

    /// Hands out the runs written so far and starts again with no runs,
    /// the default format and the open style. A last run that is a line
    /// break by itself at the end of the text is left out.
    pub fn take(&mut self) -> (job: LayoutJob)
        requires
            old(self).wf(),
        ensures
            final(self).wf(),
            final(self)@ == taken(old(self)@),
            job@ == taken_job(old(self)@),
    {
        self.flush_to_egui();
        self.egui_format = TextFormat::default();
        self.current_style = Style::default();
        let mut output = LayoutJob::new();
        std::mem::swap(&mut output, &mut self.egui_output);
        let sections = output.sections.len();
        let length = output.text.len();
        if sections > 0 && length > 0 {
            let last = output.sections[sections - 1];
            if output.text[length - 1] == NEWLINE && last.end - last.start == 1 {
                output.sections.pop();
                proof {
                    assert(output@.sections =~= flushed(old(self)@).job.sections.drop_last());
                }
            }
        }
        output
    }

    /// Finishes the writer: closes every label that is still open and
    /// applies the style of the empty stack, whose colors must be colors
    /// that can be drawn.
    pub fn finish(&mut self)
        requires
            old(self).wf(),
            clearable(old(self)@),
        ensures
            final(self).wf(),
            final(self)@ == finished(old(self)@),
    {
        self.labels.clear();
        proof {
            assert(labels_view(self.labels@) =~= Seq::<Seq<char>>::empty());
        }
        self.write_new_style();
    }
}

} // verus!
