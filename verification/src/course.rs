//! The course of a capture: what is done after what.

use crate::config::{text_of, Backend, Config, GrimMode};
use crate::menu::is_blank;
use crate::session::Turn;
use crate::text::{trimmed, Kind};
use vstd::prelude::*;

verus! {

/// How frames come.
#[derive(Clone, Copy, Debug, PartialEq, Eq, Structural)]
pub enum Manner {
    /// From the compositor, until it is told to stop.
    Frames,
    /// By `grim`, until it is told to stop.
    Repeated,
    /// By `grim`, each one when it is asked for.
    Asked,
}

/// What is done next.
#[derive(Clone, Copy, Debug, PartialEq, Eq, Structural)]
pub enum Step {
    /// The region of the capture is selected, as none was passed.
    Choose,
    /// A frame is captured and given.
    Capture,
    /// The picture is written to the stream.
    Stream,
    /// The preview is drawn.
    Show,
    /// It is asked what was done on the preview.
    Ask,
    /// The preview is drawn after what was done on it.
    Redraw,
    /// The time until the next frame is spent.
    Rest,
    /// It is asked whether another frame is wanted.
    Await,
    /// The region of the next frame is selected.
    Select,
    /// The picture is written.
    Write,
    /// Nothing is written.
    Leave,
}

/// What came of a step.
#[derive(Clone, Copy, Debug, PartialEq, Eq, Structural)]
pub enum Reply {
    /// It was done.
    Done,
    /// A frame was given, and the picture is to be streamed or not.
    Given { stream: bool },
    /// There are no more frames.
    Ended,
    /// What was done on the preview changes what it shows, or not.
    Asked { redraw: bool },
    /// It was told what to do.
    Told(Turn),
    /// A region was selected, or none.
    Selected { region: bool },
}

/// Where a capture stands.
#[derive(Clone, Copy, Debug, PartialEq, Eq, Structural)]
pub struct Course {
    pub manner: Manner,
    pub preview: bool,
    /// Whether no frame was given yet.
    pub first: bool,
    pub step: Step,
}

/// A region that was named, if any: a blank text names none.
pub open spec fn named(text: Option<Seq<char>>) -> Option<Seq<char>> {
    match text {
        Some(name) => if trimmed(name, Kind::White).len() > 0 {
            text
        } else {
            None
        },
        None => None,
    }
}

/// How frames come by what was asked for.
pub open spec fn manner_of(config: Config) -> Manner {
    match (config.backend, config.grim_mode) {
        (Backend::Frame, _) => Manner::Frames,
        (Backend::Grim, GrimMode::Auto) => Manner::Repeated,
        (Backend::Grim, GrimMode::Manual) => Manner::Asked,
    }
}

impl Course {
    /// Where a capture stands when it begins: a region is selected first only where none was
    /// passed, and where a blank one was, there is nothing to capture.
    pub open spec fn begun(manner: Manner, preview: bool, region: Option<Seq<char>>) -> Course {
        let step = if region is None {
            Step::Choose
        } else if named(region) is None {
            Step::Leave
        } else {
            Step::Capture
        };
        Course { manner, preview, first: true, step }
    }

    /// What follows once a frame was dealt with: between frames that come on their own time is
    /// spent, except after the first by `grim`.
    pub open spec fn onward(self) -> Course {
        let step = match self.manner {
            Manner::Frames => Step::Rest,
            Manner::Repeated => if self.first {
                Step::Capture
            } else {
                Step::Rest
            },
            Manner::Asked => Step::Await,
        };
        Course { step, first: false, ..self }
    }

    /// What follows once the picture was streamed, if it was.
    pub open spec fn streamed(self) -> Course {
        if self.preview {
            Course { step: Step::Show, ..self }
        } else {
            self.onward()
        }
    }

    /// Where a capture stands after what came of a step; what does not belong to the step
    /// changes nothing.
    pub open spec fn after(self, reply: Reply) -> Course {
        match (self.step, reply) {
            (Step::Choose, Reply::Selected { region: true }) => Course {
                step: Step::Capture,
                ..self
            },
            (Step::Choose, Reply::Selected { region: false }) => Course {
                step: Step::Leave,
                ..self
            },
            (Step::Capture, Reply::Given { stream: true }) => Course {
                step: Step::Stream,
                ..self
            },
            (Step::Capture, Reply::Given { stream: false }) => self.streamed(),
            (Step::Capture, Reply::Ended) => Course { step: Step::Write, ..self },
            (Step::Stream, Reply::Done) => self.streamed(),
            (Step::Show, Reply::Done) => Course { step: Step::Ask, ..self },
            (Step::Ask, Reply::Asked { redraw: true }) => Course { step: Step::Redraw, ..self },
            (Step::Ask, Reply::Asked { redraw: false }) => self.onward(),
            (Step::Redraw, Reply::Done) => self.onward(),
            (Step::Rest, Reply::Done) => Course { step: Step::Capture, ..self },
            (Step::Await, Reply::Told(Turn::Select)) => Course { step: Step::Select, ..self },
            (Step::Await, Reply::Told(Turn::Finish)) => Course { step: Step::Write, ..self },
            (Step::Await, Reply::Told(Turn::Abort)) => Course { step: Step::Leave, ..self },
            (Step::Select, Reply::Selected { region: true }) => Course {
                step: Step::Capture,
                ..self
            },
            (Step::Select, Reply::Selected { region: false }) => Course {
                step: Step::Await,
                ..self
            },
            _ => self,
        }
    }

    /// Whether a step can come up in a capture of this manner.
    pub open spec fn proper(self) -> bool {
        &&& self.step == Step::Show || self.step == Step::Ask || self.step == Step::Redraw
            ==> self.preview
        &&& self.step == Step::Await || self.step == Step::Select ==> self.manner == Manner::Asked
        &&& self.step == Step::Choose ==> self.first
        &&& self.step == Step::Leave ==> self.first || self.manner == Manner::Asked
        &&& self.step == Step::Rest ==> self.manner != Manner::Asked
    }

    /// Begins a capture.
    pub fn new(config: &Config) -> (course: Course)
        ensures
            course == Course::begun(
                manner_of(*config),
                config.preview,
                text_of(config.geometry),
            ),
    {
        let manner = match config.backend {
            Backend::Frame => Manner::Frames,
            Backend::Grim => match config.grim_mode {
                GrimMode::Auto => Manner::Repeated,
                GrimMode::Manual => Manner::Asked,
            },
        };
        let step = match &config.geometry {
            None => Step::Choose,
            Some(region) => if is_blank(region.as_str()) {
                Step::Leave
            } else {
                Step::Capture
            },
        };
        Course { manner, preview: config.preview, first: true, step }
    }

    fn turn_onward(&mut self)
        ensures
            *final(self) == old(self).onward(),
    {
        self.step = match self.manner {
            Manner::Frames => Step::Rest,
            Manner::Repeated => if self.first {
                Step::Capture
            } else {
                Step::Rest
            },
            Manner::Asked => Step::Await,
        };
        self.first = false;
    }

    fn turn_streamed(&mut self)
        ensures
            *final(self) == old(self).streamed(),
    {
        if self.preview {
            self.step = Step::Show;
        } else {
            self.turn_onward();
        }
    }

    /// Takes note of what came of a step, and tells the next one.
    pub fn next(&mut self, reply: Reply) -> (step: Step)
        ensures
            *final(self) == old(self).after(reply),
            step == final(self).step,
    {
        match (self.step, reply) {
            (Step::Choose, Reply::Selected { region }) => {
                self.step = if region {
                    Step::Capture
                } else {
                    Step::Leave
                };
            },
            (Step::Capture, Reply::Given { stream }) => {
                if stream {
                    self.step = Step::Stream;
                } else {
                    self.turn_streamed();
                }
            },
            (Step::Capture, Reply::Ended) => {
                self.step = Step::Write;
            },
            (Step::Stream, Reply::Done) => {
                self.turn_streamed();
            },
            (Step::Show, Reply::Done) => {
                self.step = Step::Ask;
            },
            (Step::Ask, Reply::Asked { redraw }) => {
                if redraw {
                    self.step = Step::Redraw;
                } else {
                    self.turn_onward();
                }
            },
            (Step::Redraw, Reply::Done) => {
                self.turn_onward();
            },
            (Step::Rest, Reply::Done) => {
                self.step = Step::Capture;
            },
            (Step::Await, Reply::Told(turn)) => {
                self.step = match turn {
                    Turn::Select => Step::Select,
                    Turn::Finish => Step::Write,
                    Turn::Abort => Step::Leave,
                };
            },
            (Step::Select, Reply::Selected { region }) => {
                self.step = if region {
                    Step::Capture
                } else {
                    Step::Await
                };
            },
            _ => {},
        }
        self.step
    }
}

/// A capture begins and stays proper: the preview comes up only where it is shown, and only a
/// capture whose frames are asked for waits to be told or selects another region.
pub proof fn lemma_course_proper(course: Course, reply: Reply, region: Option<Seq<char>>)
    ensures
        Course::begun(course.manner, course.preview, region).proper(),
        course.proper() ==> course.after(reply).proper(),
        course.after(reply).manner == course.manner,
        course.after(reply).preview == course.preview,
{
}

/// A capture is written or left once and for all, and only when it was told so, no region was
/// selected at first, or there were no more frames.
pub proof fn lemma_course_ends(course: Course, reply: Reply)
    ensures
        course.step == Step::Write || course.step == Step::Leave ==> course.after(reply) == course,
        course.step != Step::Write && course.after(reply).step == Step::Write ==> reply
            == Reply::Ended || reply == Reply::Told(Turn::Finish),
        course.step != Step::Leave && course.after(reply).step == Step::Leave ==> reply
            == Reply::Told(Turn::Abort) || (course.step == Step::Choose && reply
            == Reply::Selected { region: false }),
{
}

/// A frame is followed by the next one on the way of its manner, whatever comes of the
/// preview in between.
pub proof fn lemma_frame_dealt_with(course: Course, stream: bool, redraw: bool)
    requires
        course.step == Step::Capture,
    ensures
        ({
            let given = course.after(Reply::Given { stream });
            let streamed = given.after(Reply::Done);
            let shown = if stream {
                streamed.after(Reply::Done)
            } else {
                given.after(Reply::Done)
            };
            let asked = shown.after(Reply::Asked { redraw });
            &&& !course.preview && !stream ==> given == course.onward()
            &&& !course.preview && stream ==> given.step == Step::Stream && streamed
                == course.onward()
            &&& course.preview && !redraw ==> asked == course.onward()
            &&& course.preview && redraw ==> asked.step == Step::Redraw && asked.after(Reply::Done)
                == course.onward()
        }),
{
}

/// A capture with the region that it is of.
pub struct Touring {
    pub course: Course,
    pub region: Option<Seq<char>>,
}

/// What happens in a capture: a step is dealt with, or it is told which region was selected.
pub enum Event {
    Replied(Reply),
    Selected(Option<Seq<char>>),
}

impl Touring {
    /// A capture that begins, by the region that was passed.
    pub open spec fn begun(manner: Manner, preview: bool, region: Option<Seq<char>>) -> Touring {
        Touring { course: Course::begun(manner, preview, region), region }
    }

    /// Whether it is asked for a region.
    pub open spec fn asks(self) -> bool {
        self.course.step == Step::Choose || self.course.step == Step::Select
    }

    /// What follows once a step was dealt with; it is asked for a region until one is told.
    pub open spec fn replied(self, reply: Reply) -> Touring {
        if self.asks() {
            self
        } else {
            Touring { course: self.course.after(reply), ..self }
        }
    }

    /// What follows once it was told which region was selected: only then the region changes.
    pub open spec fn selected(self, text: Option<Seq<char>>) -> Touring {
        if !self.asks() {
            self
        } else {
            Touring {
                course: self.course.after(Reply::Selected { region: named(text) is Some }),
                region: if named(text) is Some {
                    named(text)
                } else {
                    self.region
                },
            }
        }
    }

    /// What follows something that happened.
    pub open spec fn came(self, event: Event) -> Touring {
        match event {
            Event::Replied(reply) => self.replied(reply),
            Event::Selected(text) => self.selected(text),
        }
    }

    /// What follows all that happened.
    pub open spec fn after(self, events: Seq<Event>) -> Touring
        decreases events.len(),
    {
        if events.len() == 0 {
            self
        } else {
            self.after(events.drop_last()).came(events.last())
        }
    }

    /// What was selected, each time that it was asked for a region.
    pub open spec fn answers(self, events: Seq<Event>) -> Seq<Option<Seq<char>>>
        decreases events.len(),
    {
        if events.len() == 0 {
            Seq::empty()
        } else {
            let before = self.answers(events.drop_last());
            match events.last() {
                Event::Selected(text) if self.after(events.drop_last()).asks() => before.push(text),
                _ => before,
            }
        }
    }

    /// The regions that frames were captured from.
    pub open spec fn captured(self, events: Seq<Event>) -> Seq<Option<Seq<char>>>
        decreases events.len(),
    {
        if events.len() == 0 {
            Seq::empty()
        } else {
            let before = self.captured(events.drop_last());
            let now = self.after(events.drop_last());
            if now.course.step == Step::Capture {
                before.push(now.region)
            } else {
                before
            }
        }
    }
}

/// A capture with the region that it is of.
#[derive(Debug)]
pub struct Tour {
    course: Course,
    region: Option<String>,
}

impl View for Tour {
    type V = Touring;

    closed spec fn view(&self) -> Touring {
        Touring { course: self.course, region: text_of(self.region) }
    }
}

impl Tour {
    /// Begins a capture of the region that was passed, if any.
    pub fn new(config: &Config) -> (tour: Tour)
        ensures
            tour@ == Touring::begun(
                manner_of(*config),
                config.preview,
                text_of(config.geometry),
            ),
    {
        let region = match &config.geometry {
            Some(text) => Some(text.clone()),
            None => None,
        };
        Tour { course: Course::new(config), region }
    }

    /// Where the capture stands.
    pub fn course(&self) -> (course: &Course)
        ensures
            *course == self@.course,
    {
        &self.course
    }

    /// The region that frames are captured from.
    pub fn region(&self) -> (region: Option<&String>)
        ensures
            (match region {
                Some(text) => Some(text@),
                None => None,
            }) == self@.region,
    {
        match &self.region {
            Some(text) => Some(text),
            None => None,
        }
    }

    /// Takes note of what came of a step, and tells the next one.
    pub fn next(&mut self, reply: Reply) -> (step: Step)
        ensures
            final(self)@ == old(self)@.replied(reply),
            step == final(self)@.course.step,
    {
        if self.course.step == Step::Choose || self.course.step == Step::Select {
            return self.course.step;
        }
        self.course.next(reply)
    }

    /// Takes note of which region was selected, where it is asked for one, and tells the next
    /// step.
    pub fn select(&mut self, text: Option<String>) -> (step: Step)
        ensures
            final(self)@ == old(self)@.selected(text_of(text)),
            step == final(self)@.course.step,
    {
        if self.course.step != Step::Choose && self.course.step != Step::Select {
            return self.course.step;
        }
        match text {
            Some(text) => {
                if is_blank(text.as_str()) {
                    self.course.next(Reply::Selected { region: false })
                } else {
                    self.region = Some(text);
                    self.course.next(Reply::Selected { region: true })
                }
            },
            None => self.course.next(Reply::Selected { region: false }),
        }
    }
}

/// The region that was named last: the one passed, unless another was selected.
pub open spec fn last_named(
    passed: Option<Seq<char>>,
    answers: Seq<Option<Seq<char>>>,
) -> Option<Seq<char>>
    decreases answers.len(),
{
    if answers.len() == 0 {
        passed
    } else if named(answers.last()) is Some {
        named(answers.last())
    } else {
        last_named(passed, answers.drop_last())
    }
}

/// A capture is of the region that was named last. It is asked for a region at first if and
/// only if none was passed, and frames are captured only once there is one.
pub proof fn lemma_region_named(
    manner: Manner,
    preview: bool,
    passed: Option<Seq<char>>,
    events: Seq<Event>,
)
    ensures
        ({
            let start = Touring::begun(manner, preview, passed);
            let now = start.after(events);
            let answers = start.answers(events);
            &&& now.region == last_named(passed, answers)
            &&& now.course.step == Step::Choose <==> passed is None && answers.len() == 0
            &&& now.course.step != Step::Choose && now.course.step != Step::Leave ==> named(
                now.region,
            ) is Some
            &&& now.course.manner == manner
            &&& now.course.proper()
        }),
    decreases events.len(),
{
    let start = Touring::begun(manner, preview, passed);
    if events.len() > 0 {
        let fewer = events.drop_last();
        let before = start.after(fewer);
        lemma_region_named(manner, preview, passed, fewer);
        match events.last() {
            Event::Replied(reply) => {
                lemma_course_proper(before.course, reply, passed);
            },
            Event::Selected(text) => {
                let reply = Reply::Selected { region: named(text) is Some };
                lemma_course_proper(before.course, reply, passed);
                assert(start.answers(fewer).push(text).drop_last() =~= start.answers(fewer));
            },
        }
    }
}

/// A capture whose frames come on their own is of one region: all its frames are of the region
/// that was passed, for which it is never asked then; or else of the one that was selected, for
/// which it is asked exactly once.
pub proof fn lemma_one_region(
    manner: Manner,
    preview: bool,
    passed: Option<Seq<char>>,
    events: Seq<Event>,
)
    requires
        manner != Manner::Asked,
    ensures
        ({
            let start = Touring::begun(manner, preview, passed);
            let now = start.after(events);
            let answers = start.answers(events);
            &&& passed is Some ==> answers.len() == 0 && now.region == passed
            &&& passed is None ==> answers.len() == if now.course.step == Step::Choose {
                0int
            } else {
                1int
            }
            &&& passed is None && answers.len() == 1 ==> now.region == named(answers[0])
            &&& start.captured(events).len() > 0 || now.course.step == Step::Capture ==> named(
                now.region,
            ) is Some
            &&& forall|i: int|
                0 <= i < start.captured(events).len() ==> #[trigger] start.captured(events)[i]
                    == now.region
        }),
    decreases events.len(),
{
    let start = Touring::begun(manner, preview, passed);
    lemma_region_named(manner, preview, passed, events);
    if events.len() > 0 {
        let fewer = events.drop_last();
        lemma_region_named(manner, preview, passed, fewer);
        lemma_one_region(manner, preview, passed, fewer);
    }
}

} // verus!
