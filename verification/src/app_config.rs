//! The switches a sample is run with, and the per-frame decisions of the run
//! loop that follow from them.
//!
//! A gate runs a fixed number of frames (90 unless told otherwise, never
//! unbounded by omission), with two programmatic resizes on the way;
//! `--interactive` runs until the window closes.

use vstd::prelude::*;

use crate::rhi::Backend;
use crate::text::{new_text, push_text};

verus! {

pub const DEFAULT_FRAMES: u32 = 90;

#[derive(Clone, Debug)]
pub struct AppConfig {
    pub title: String,
    pub width: u32,
    pub height: u32,
    pub backend: Backend,
    pub validation: bool,
    /// `None` runs until the window closes; never `Some(0)`.
    pub max_frames: Option<u32>,
    /// `(frame, width, height)`: resize the window after that many frames.
    pub resize_at: Vec<(u32, u32, u32)>,
    /// `--capture <prefix>`: the path prefix of the captures.
    pub capture: Option<String>,
    pub vsync: bool,
    pub stats: bool,
    /// Everything after a bare `--`, for the sample's own switches.
    pub extra: Vec<String>,
}

/// What a configuration holds, with text as characters.
pub struct ConfigModel {
    pub title: Seq<char>,
    pub width: u32,
    pub height: u32,
    pub backend: Backend,
    pub validation: bool,
    pub max_frames: Option<u32>,
    pub resize_at: Seq<(u32, u32, u32)>,
    pub capture: Option<Seq<char>>,
    pub vsync: bool,
    pub stats: bool,
    pub extra: Seq<Seq<char>>,
}

impl View for AppConfig {
    type V = ConfigModel;

    open spec fn view(&self) -> ConfigModel {
        ConfigModel {
            title: self.title@,
            width: self.width,
            height: self.height,
            backend: self.backend,
            validation: self.validation,
            max_frames: self.max_frames,
            resize_at: self.resize_at@,
            capture: match self.capture {
                Some(c) => Some(c@),
                None => None,
            },
            vsync: self.vsync,
            stats: self.stats,
            extra: self.extra@.map_values(|s: String| s@),
        }
    }
}

pub open spec fn default_config() -> ConfigModel {
    ConfigModel {
        title: "harpia"@,
        width: 1280,
        height: 720,
        backend: Backend::Vulkan,
        validation: true,
        max_frames: Some(DEFAULT_FRAMES),
        resize_at: seq![(30u32, 800u32, 600u32), (60u32, 1280u32, 720u32)],
        capture: None,
        vsync: true,
        stats: false,
        extra: Seq::empty(),
    }
}

impl Default for AppConfig {
    fn default() -> (c: Self)
        ensures
            c@ == default_config(),
    {
        let c = AppConfig {
            title: new_text("harpia"),
            width: 1280,
            height: 720,
            backend: Backend::Vulkan,
            validation: true,
            max_frames: Some(DEFAULT_FRAMES),
            resize_at: vec![(30u32, 800u32, 600u32), (60u32, 1280u32, 720u32)],
            capture: None,
            vsync: true,
            stats: false,
            extra: Vec::new(),
        };
        assert(c@.resize_at =~= default_config().resize_at);
        assert(c@.extra =~= default_config().extra);
        c
    }
}

/// Why the switches were refused: what was wrong, and the error under it.
#[derive(Clone, Debug)]
pub struct ConfigError {
    pub message: String,
    pub cause: Option<String>,
}

/// What the switches ask for.
#[derive(Clone, Debug)]
pub enum Parsed {
    Run(AppConfig),
    /// `--help`: print the switches and stop.
    Help,
}

/// The outcome of parsing, as text.
pub enum ParseModel {
    Run(ConfigModel),
    Help,
    Fail(Seq<char>, Option<Seq<char>>),
}

pub open spec fn is_digit(c: char) -> bool {
    '0' <= c <= '9'
}

pub open spec fn digit_value(c: char) -> int {
    c as int - '0' as int
}

pub open spec fn empty_message() -> Seq<char> {
    "cannot parse integer from empty string"@
}

pub open spec fn invalid_digit_message() -> Seq<char> {
    "invalid digit found in string"@
}

pub open spec fn overflow_message() -> Seq<char> {
    "number too large to fit in target type"@
}

/// The digits from `i` on, added to `acc`: the first non-digit is an error,
/// and so is passing `u32::MAX`, whichever comes first.
pub open spec fn digits_from(s: Seq<char>, i: int, acc: int) -> Result<u32, Seq<char>>
    decreases s.len() - i,
{
    if i >= s.len() {
        Ok(acc as u32)
    } else if !is_digit(s[i]) {
        Err(invalid_digit_message())
    } else if acc * 10 + digit_value(s[i]) > u32::MAX {
        Err(overflow_message())
    } else {
        digits_from(s, i + 1, acc * 10 + digit_value(s[i]))
    }
}

/// A decimal `u32`, with an optional `+` in front, as `str::parse` reads it.
pub open spec fn spec_parse_u32(s: Seq<char>) -> Result<u32, Seq<char>> {
    if s.len() == 0 {
        Err(empty_message())
    } else if (s[0] == '+' || s[0] == '-') && s.len() == 1 {
        Err(invalid_digit_message())
    } else if s[0] == '+' {
        digits_from(s, 1, 0)
    } else {
        digits_from(s, 0, 0)
    }
}

fn char_at(s: &str, i: usize) -> (c: char)
    requires
        i < s@.len(),
    ensures
        c == s@[i as int],
{
    s.get_char(i)
}

fn text_len(s: &str) -> (n: usize)
    ensures
        n == s@.len(),
{
    s.unicode_len()
}

/// Whether two strings hold the same characters.
pub fn same_text(a: &str, b: &str) -> (r: bool)
    ensures
        r == (a@ == b@),
{
    let n = text_len(a);
    if n != text_len(b) {
        return false;
    }
    let mut i: usize = 0;
    while i < n
        invariant
            i <= n,
            n == a@.len(),
            n == b@.len(),
            forall|j: int| 0 <= j < i ==> a@[j] == b@[j],
        decreases n - i,
    {
        if char_at(a, i) != char_at(b, i) {
            return false;
        }
        i = i + 1;
    }
    assert(a@ =~= b@);
    true
}

fn digit_of(c: char) -> (d: u32)
    requires
        is_digit(c),
    ensures
        d == digit_value(c),
{
    (c as u32) - ('0' as u32)
}

/// Reads a decimal `u32`; the error is what `str::parse` says.
pub fn parse_u32(s: &str) -> (r: Result<u32, String>)
    ensures
        match r {
            Ok(v) => spec_parse_u32(s@) == Ok::<u32, Seq<char>>(v),
            Err(m) => spec_parse_u32(s@) == Err::<u32, Seq<char>>(m@),
        },
{
    let n = text_len(s);
    if n == 0 {
        return Err(new_text("cannot parse integer from empty string"));
    }
    let first = char_at(s, 0);
    if (first == '+' || first == '-') && n == 1 {
        return Err(new_text("invalid digit found in string"));
    }
    let mut i: usize = if first == '+' { 1 } else { 0 };
    let ghost start = i as int;
    let mut acc: u32 = 0;
    while i < n
        invariant
            n == s@.len(),
            start <= i <= n,
            spec_parse_u32(s@) == digits_from(s@, i as int, acc as int),
        decreases n - i,
    {
        let c = char_at(s, i);
        if !('0' <= c && c <= '9') {
            return Err(new_text("invalid digit found in string"));
        }
        let d = digit_of(c);
        if acc > (u32::MAX - d) / 10 {
            assert(acc * 10 + d > u32::MAX) by (nonlinear_arith)
                requires
                    acc > (u32::MAX - d) / 10,
                    d <= 9,
            ;
            return Err(new_text("number too large to fit in target type"));
        }
        assert(acc * 10 + d <= u32::MAX) by (nonlinear_arith)
            requires
                acc <= (u32::MAX - d) / 10,
                d <= 9,
        ;
        acc = acc * 10 + d;
        i = i + 1;
    }
    Ok(acc)
}

pub open spec fn msg(text: Seq<char>) -> ParseModel {
    ParseModel::Fail(text, None)
}

/// The switches from `i` on, applied to `cfg`.
pub open spec fn parse_from(args: Seq<Seq<char>>, i: int, cfg: ConfigModel) -> ParseModel
    decreases args.len() - i,
{
    if i >= args.len() || i < 0 {
        ParseModel::Run(cfg)
    } else {
        let a = args[i];
        let has_value = i + 1 < args.len();
        let v = args[i + 1];
        if a == "--frames"@ {
            if !has_value {
                msg("`--frames` needs a value"@)
            } else {
                match spec_parse_u32(v) {
                    Err(e) => ParseModel::Fail("`--frames` must be a number"@, Some(e)),
                    Ok(n) => parse_from(
                        args,
                        i + 2,
                        ConfigModel { max_frames: Some(if n == 0 { DEFAULT_FRAMES } else { n }), ..cfg },
                    ),
                }
            }
        } else if a == "--interactive"@ || a == "-i"@ {
            parse_from(args, i + 1, ConfigModel { max_frames: None, resize_at: Seq::empty(), ..cfg })
        } else if a == "--backend"@ {
            if !has_value {
                msg("`--backend` needs vulkan|null"@)
            } else if v == "vulkan"@ || v == "vk"@ {
                parse_from(args, i + 2, ConfigModel { backend: Backend::Vulkan, ..cfg })
            } else if v == "null"@ {
                parse_from(args, i + 2, ConfigModel { backend: Backend::Null, ..cfg })
            } else {
                msg("unknown backend `"@ + v + "`"@)
            }
        } else if a == "--validation"@ {
            if !has_value {
                msg("`--validation` needs 0|1|on|off"@)
            } else {
                parse_from(
                    args,
                    i + 2,
                    ConfigModel { validation: v == "1"@ || v == "on"@ || v == "true"@, ..cfg },
                )
            }
        } else if a == "--width"@ || a == "--height"@ {
            if !has_value {
                msg(if a == "--width"@ { "`--width`"@ } else { "`--height`"@ })
            } else {
                match spec_parse_u32(v) {
                    Err(e) => msg(e),
                    Ok(n) => parse_from(
                        args,
                        i + 2,
                        if a == "--width"@ {
                            ConfigModel { width: n, ..cfg }
                        } else {
                            ConfigModel { height: n, ..cfg }
                        },
                    ),
                }
            }
        } else if a == "--title"@ {
            if !has_value {
                msg("`--title`"@)
            } else {
                parse_from(args, i + 2, ConfigModel { title: v, ..cfg })
            }
        } else if a == "--capture"@ {
            if !has_value {
                msg("`--capture` needs a path prefix"@)
            } else {
                parse_from(args, i + 2, ConfigModel { capture: Some(v), ..cfg })
            }
        } else if a == "--help"@ || a == "-h"@ {
            ParseModel::Help
        } else if a == "--vsync"@ {
            if !has_value {
                msg("`--vsync` needs 0|1"@)
            } else {
                parse_from(args, i + 2, ConfigModel { vsync: v != "0"@, ..cfg })
            }
        } else if a == "--stats"@ {
            parse_from(args, i + 1, ConfigModel { stats: true, ..cfg })
        } else if a == "--"@ {
            ParseModel::Run(ConfigModel { extra: cfg.extra + args.skip(i + 1), ..cfg })
        } else {
            msg("unknown argument `"@ + a + "`"@)
        }
    }
}

/// The switches of a run: the program name first, then the switches.
pub open spec fn spec_parse(args: Seq<Seq<char>>) -> ParseModel {
    parse_from(args, 1, default_config())
}

fn fail(message: &str) -> (r: Result<Parsed, ConfigError>)
    ensures
        r matches Err(e) && e.message@ == message@ && e.cause is None,
{
    Err(ConfigError { message: new_text(message), cause: None })
}

fn quoted(prefix: &str, s: &str) -> (r: Result<Parsed, ConfigError>)
    ensures
        r matches Err(e) && e.message@ == prefix@ + s@ + "`"@ && e.cause is None,
{
    let mut m = new_text(prefix);
    push_text(&mut m, s);
    push_text(&mut m, "`");
    Err(ConfigError { message: m, cause: None })
}

/// `r` is what the switches come to.
pub open spec fn parsed_as(r: Result<Parsed, ConfigError>, m: ParseModel) -> bool {
    match r {
        Ok(Parsed::Run(c)) => m == ParseModel::Run(c@),
        Ok(Parsed::Help) => m == ParseModel::Help,
        Err(e) => m == ParseModel::Fail(
            e.message@,
            match e.cause {
                Some(c) => Some(c@),
                None => None,
            },
        ),
    }
}

impl AppConfig {
    /// Reads the switches of a run. `args[0]` is the program.
    pub fn parse(args: &Vec<String>) -> (r: Result<Parsed, ConfigError>)
        ensures
            parsed_as(r, spec_parse(args@.map_values(|s: String| s@))),
    {
        let ghost av = args@.map_values(|s: String| s@);
        let mut cfg = AppConfig::default();
        let mut i: usize = 1;
        while i < args.len()
            invariant
                av == args@.map_values(|s: String| s@),
                1 <= i,
                spec_parse(av) == parse_from(av, i as int, cfg@),
            decreases args.len() - i,
        {
            let a = args[i].as_str();
            assert(a@ == av[i as int]);
            let has_value = i + 1 < args.len();
            if same_text(a, "--frames") {
                if !has_value {
                    return fail("`--frames` needs a value");
                }
                let v = args[i + 1].as_str();
                assert(v@ == av[i + 1]);
                match parse_u32(v) {
                    Err(e) => {
                        return Err(ConfigError { message: new_text("`--frames` must be a number"), cause: Some(e) });
                    },
                    Ok(n) => {
                        cfg.max_frames = Some(if n == 0 { DEFAULT_FRAMES } else { n });
                    },
                }
                i = i + 2;
            } else if same_text(a, "--interactive") || same_text(a, "-i") {
                cfg.max_frames = None;
                cfg.resize_at = Vec::new();
                assert(cfg@.resize_at =~= Seq::<(u32, u32, u32)>::empty());
                i = i + 1;
            } else if same_text(a, "--backend") {
                if !has_value {
                    return fail("`--backend` needs vulkan|null");
                }
                let v = args[i + 1].as_str();
                assert(v@ == av[i + 1]);
                if same_text(v, "vulkan") || same_text(v, "vk") {
                    cfg.backend = Backend::Vulkan;
                } else if same_text(v, "null") {
                    cfg.backend = Backend::Null;
                } else {
                    return quoted("unknown backend `", v);
                }
                i = i + 2;
            } else if same_text(a, "--validation") {
                if !has_value {
                    return fail("`--validation` needs 0|1|on|off");
                }
                let v = args[i + 1].as_str();
                assert(v@ == av[i + 1]);
                cfg.validation = same_text(v, "1") || same_text(v, "on") || same_text(v, "true");
                i = i + 2;
            } else if same_text(a, "--width") || same_text(a, "--height") {
                let is_width = same_text(a, "--width");
                if !has_value {
                    return if is_width {
                        fail("`--width`")
                    } else {
                        fail("`--height`")
                    };
                }
                let v = args[i + 1].as_str();
                assert(v@ == av[i + 1]);
                match parse_u32(v) {
                    Err(e) => {
                        return Err(ConfigError { message: e, cause: None });
                    },
                    Ok(n) => {
                        if is_width {
                            cfg.width = n;
                        } else {
                            cfg.height = n;
                        }
                    },
                }
                i = i + 2;
            } else if same_text(a, "--title") {
                if !has_value {
                    return fail("`--title`");
                }
                cfg.title = args[i + 1].clone();
                i = i + 2;
            } else if same_text(a, "--capture") {
                if !has_value {
                    return fail("`--capture` needs a path prefix");
                }
                cfg.capture = Some(args[i + 1].clone());
                i = i + 2;
            } else if same_text(a, "--help") || same_text(a, "-h") {
                return Ok(Parsed::Help);
            } else if same_text(a, "--vsync") {
                if !has_value {
                    return fail("`--vsync` needs 0|1");
                }
                let v = args[i + 1].as_str();
                assert(v@ == av[i + 1]);
                cfg.vsync = !same_text(v, "0");
                i = i + 2;
            } else if same_text(a, "--stats") {
                cfg.stats = true;
                i = i + 1;
            } else if same_text(a, "--") {
                let ghost before = cfg@;
                let mut k = i + 1;
                while k < args.len()
                    invariant
                        av == args@.map_values(|s: String| s@),
                        i < k <= args@.len(),
                        cfg@ == (ConfigModel { extra: before.extra + av.subrange(i + 1, k as int), ..before }),
                    decreases args.len() - k,
                {
                    let ghost old_extra = cfg.extra@;
                    let c = args[k].clone();
                    assert(c@ == av[k as int]);
                    cfg.extra.push(c);
                    assert(cfg.extra@ == old_extra.push(c));
                    assert(cfg.extra@.map_values(|s: String| s@) =~= old_extra.map_values(|s: String| s@).push(
                        c@,
                    ));
                    assert(cfg@.extra =~= before.extra + av.subrange(i + 1, k + 1));
                    k = k + 1;
                }
                assert(av.subrange(i + 1, av.len() as int) =~= av.skip(i + 1));
                return Ok(Parsed::Run(cfg));
            } else {
                return quoted("unknown argument `", a);
            }
        }
        Ok(Parsed::Run(cfg))
    }

    /// The resize due once `frames_done` frames are done: the first entry of
    /// `resize_at` for that frame.
    pub fn resize_for(&self, frames_done: u32) -> (r: Option<(u32, u32)>)
        ensures
            match r {
                Some((w, h)) => exists|k: int|
                    0 <= k < self.resize_at@.len() && #[trigger] self.resize_at@[k] == (frames_done, w, h) && forall|
                        j: int,
                    | 0 <= j < k ==> (#[trigger] self.resize_at@[j]).0 != frames_done,
                None => forall|k: int| 0 <= k < self.resize_at@.len() ==> (#[trigger] self.resize_at@[k]).0 != frames_done,
            },
    {
        let mut k: usize = 0;
        while k < self.resize_at.len()
            invariant
                k <= self.resize_at@.len(),
                forall|j: int| 0 <= j < k ==> (#[trigger] self.resize_at@[j]).0 != frames_done,
            decreases self.resize_at.len() - k,
        {
            let (at, w, h) = self.resize_at[k];
            if at == frames_done {
                assert(self.resize_at@[k as int] == (frames_done, w, h));
                return Some((w, h));
            }
            k = k + 1;
        }
        None
    }

    /// The run is over once the frames asked for are done; an interactive
    /// run only ends when its window closes.
    pub fn run_is_done(&self, frames_done: u32) -> (r: bool)
        ensures
            r == match self.max_frames {
                Some(m) => frames_done >= m,
                None => false,
            },
    {
        match self.max_frames {
            Some(m) => frames_done >= m,
            None => false,
        }
    }
}

/// `--frames 0` is refused in favour of the default, and no switch can make
/// a run unbounded but `--interactive`: a parsed run asks for at least one
/// frame or for none at all.
pub proof fn never_unbounded_by_omission(args: Seq<Seq<char>>, i: int, cfg: ConfigModel)
    requires
        cfg.max_frames != Some(0u32),
    ensures
        parse_from(args, i, cfg) matches ParseModel::Run(c) ==> c.max_frames != Some(0u32),
    decreases args.len() - i,
{
    if 0 <= i < args.len() {
        let a = args[i];
        if a == "--frames"@ && i + 1 < args.len() {
            if let Ok(n) = spec_parse_u32(args[i + 1]) {
                never_unbounded_by_omission(
                    args,
                    i + 2,
                    ConfigModel { max_frames: Some(if n == 0 { DEFAULT_FRAMES } else { n }), ..cfg },
                );
            }
        } else if a == "--interactive"@ || a == "-i"@ {
            never_unbounded_by_omission(args, i + 1, ConfigModel { max_frames: None, resize_at: Seq::empty(), ..cfg });
        } else if a == "--backend"@ && i + 1 < args.len() {
            never_unbounded_by_omission(args, i + 2, ConfigModel { backend: Backend::Vulkan, ..cfg });
            never_unbounded_by_omission(args, i + 2, ConfigModel { backend: Backend::Null, ..cfg });
        } else if a == "--validation"@ && i + 1 < args.len() {
            let v = args[i + 1];
            never_unbounded_by_omission(
                args,
                i + 2,
                ConfigModel { validation: v == "1"@ || v == "on"@ || v == "true"@, ..cfg },
            );
        } else if (a == "--width"@ || a == "--height"@) && i + 1 < args.len() {
            if let Ok(n) = spec_parse_u32(args[i + 1]) {
                never_unbounded_by_omission(args, i + 2, ConfigModel { width: n, ..cfg });
                never_unbounded_by_omission(args, i + 2, ConfigModel { height: n, ..cfg });
            }
        } else if a == "--title"@ && i + 1 < args.len() {
            never_unbounded_by_omission(args, i + 2, ConfigModel { title: args[i + 1], ..cfg });
        } else if a == "--capture"@ && i + 1 < args.len() {
            never_unbounded_by_omission(args, i + 2, ConfigModel { capture: Some(args[i + 1]), ..cfg });
        } else if a == "--vsync"@ && i + 1 < args.len() {
            never_unbounded_by_omission(args, i + 2, ConfigModel { vsync: args[i + 1] != "0"@, ..cfg });
        } else if a == "--stats"@ {
            never_unbounded_by_omission(args, i + 1, ConfigModel { stats: true, ..cfg });
        }
    }
}

} // verus!
