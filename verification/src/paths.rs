//! Where an application keeps its files.
//!
//! ```text
//! ~/.<app>/
//!     config.toml
//!     <app>.sqlite
//!     logs/<app>_YYYYMMDD.log
//!     captures/YYYYMMDD/HHMMSS_<call>.wav
//! ~/<app>_log.adi
//! ```
//!
//! Paths are texts with a slash between their parts, which every platform reads as a
//! separator.
use vstd::prelude::*;
use vstd::string::*;

use crate::clock::{
    date_text, fields_of, format_date, format_time_of_day, representable, time_text, utc_fields, utc_ms_now,
};
use crate::proto::opt_text;
use crate::text::{ascii_lower, chars_of, lower_char, to_lower};

verus! {

/// The user's home directory by `dirs::home_dir`, characters that are not UTF-8
/// replaced; none where there is none. Nothing is claimed of it: it depends on
/// the environment.
#[verifier::external_body]
fn home_dir() -> (r: Option<String>) {
    dirs::home_dir().map(|p| p.to_string_lossy().into_owned())
}

/// The directory that an application's paths lie below: the home directory, or the
/// current directory where there is none.
pub open spec fn root_of(home: Option<Seq<char>>) -> Seq<char> {
    match home {
        Some(h) => h,
        None => "."@,
    }
}

/// The home directory, or the current directory where there is none.
pub fn home_or_here(home: Option<String>) -> (r: String)
    ensures
        r@ == root_of(opt_text(home)),
{
    match home {
        Some(h) => h,
        None => ".".to_owned(),
    }
}

/// A path below another. A part that starts with a slash stands alone.
pub open spec fn joined(base: Seq<char>, part: Seq<char>) -> Seq<char> {
    if part.len() > 0 && part[0] == '/' {
        part
    } else if base.len() == 0 || base.last() == '/' {
        base + part
    } else {
        base + "/"@ + part
    }
}

/// A path below another.
pub fn join(base: &str, part: &str) -> (r: String)
    ensures
        r@ == joined(base@, part@),
{
    let p = chars_of(part);
    let b = chars_of(base);
    if p.len() > 0 && p[0] == '/' {
        return part.to_owned();
    }
    let mut s = base.to_owned();
    if b.len() > 0 && b[b.len() - 1] != '/' {
        s.append("/");
    }
    s.append(part);
    s
}

/// The paths of an application.
#[derive(Debug, Clone)]
pub struct Paths {
    /// The name of the application in lower case.
    pub app_name: String,
    pub config_dir: String,
    pub config_file: String,
    pub db_file: String,
    pub log_dir: String,
    pub captures_dir: String,
    pub adif_file: String,
}

/// The mathematical content of [`Paths`].
#[verifier::ext_equal]
pub struct PathsView {
    pub app_name: Seq<char>,
    pub config_dir: Seq<char>,
    pub config_file: Seq<char>,
    pub db_file: Seq<char>,
    pub log_dir: Seq<char>,
    pub captures_dir: Seq<char>,
    pub adif_file: Seq<char>,
}

impl View for Paths {
    type V = PathsView;

    open spec fn view(&self) -> PathsView {
        PathsView {
            app_name: self.app_name@,
            config_dir: self.config_dir@,
            config_file: self.config_file@,
            db_file: self.db_file@,
            log_dir: self.log_dir@,
            captures_dir: self.captures_dir@,
            adif_file: self.adif_file@,
        }
    }
}

/// The log of contacts of an application below a directory.
pub open spec fn adif_path(app_name: Seq<char>, root: Seq<char>) -> Seq<char> {
    joined(root, ascii_lower(app_name) + "_log.adi"@)
}

/// The paths of an application below a directory.
pub open spec fn layout(app_name: Seq<char>, root: Seq<char>) -> PathsView {
    let app = ascii_lower(app_name);
    let config_dir = joined(root, "."@ + app);
    PathsView {
        app_name: app,
        config_dir,
        config_file: joined(config_dir, "config.toml"@),
        db_file: joined(config_dir, app + ".sqlite"@),
        log_dir: joined(config_dir, "logs"@),
        captures_dir: joined(config_dir, "captures"@),
        adif_file: adif_path(app_name, root),
    }
}

/// A text in which every character but ASCII letters and digits is an
/// underscore.
pub open spec fn sanitised(s: Seq<char>) -> Seq<char> {
    Seq::new(
        s.len(),
        |i: int|
            if ('a' <= s[i] <= 'z') || ('A' <= s[i] <= 'Z') || ('0' <= s[i] <= '9') {
                s[i]
            } else {
                '_'
            },
    )
}

/// A text in which every character but ASCII letters and digits is an
/// underscore.
pub fn sanitise(s: &str) -> (r: String)
    ensures
        r@ == sanitised(s@),
{
    let x = chars_of(s);
    let mut out = String::new();
    let mut i: usize = 0;
    assert(sanitised(s@).take(0) =~= Seq::<char>::empty());
    while i < x.len()
        invariant
            i <= x@.len(),
            x@ == s@,
            out@ == sanitised(s@).take(i as int),
        decreases x.len() - i,
    {
        let c = x[i];
        let plain = ('a' <= c && c <= 'z') || ('A' <= c && c <= 'Z') || ('0' <= c && c <= '9');
        out.push(
            if plain {
                c
            } else {
                '_'
            },
        );
        assert(sanitised(s@).take(i + 1) =~= sanitised(s@).take(i as int).push(sanitised(s@)[i as int]));
        i = i + 1;
    }
    assert(sanitised(s@).take(i as int) =~= sanitised(s@));
    out
}

/// The file name of a recording.
pub open spec fn capture_name(time: Seq<char>, callsign: Seq<char>) -> Seq<char> {
    time + "_"@ + sanitised(callsign) + ".wav"@
}

impl Paths {
    /// The paths of an application below the home directory.
    pub fn new(app_name: &str) -> (r: Self)
        ensures
            exists|home: Option<Seq<char>>| r@ == layout(app_name@, #[trigger] root_of(home)),
    {
        let home = home_or_here(home_dir());
        Self::new_with_root(app_name, home.as_str())
    }

    /// The paths of an application below `root`.
    pub fn new_with_root(app_name: &str, root: &str) -> (r: Self)
        ensures
            r@ == layout(app_name@, root@),
    {
        let app = to_lower(app_name);
        let mut hidden = ".".to_owned();
        hidden.append(app.as_str());
        let config_dir = join(root, hidden.as_str());
        let mut db = app.clone();
        db.append(".sqlite");
        let mut adif = app.clone();
        adif.append("_log.adi");
        Paths {
            app_name: app,
            config_file: join(config_dir.as_str(), "config.toml"),
            db_file: join(config_dir.as_str(), db.as_str()),
            log_dir: join(config_dir.as_str(), "logs"),
            captures_dir: join(config_dir.as_str(), "captures"),
            adif_file: join(root, adif.as_str()),
            config_dir,
        }
    }

    /// The log file of the day of an instant.
    pub fn log_file_at(&self, ms: i64) -> (r: String)
        requires
            representable(ms as int),
        ensures
            r@ == joined(
                self@.log_dir,
                self@.app_name + "_"@ + date_text(fields_of(ms as int)) + ".log"@,
            ),
    {
        let f = utc_fields(ms);
        let mut name = self.app_name.clone();
        name.append("_");
        name.append(format_date(&f).as_str());
        name.append(".log");
        join(self.log_dir.as_str(), name.as_str())
    }

    /// The log file of today.
    pub fn log_file_today(&self) -> (r: String)
        ensures
            exists|ms: i64| #[trigger]
                representable(ms as int) && r@ == joined(
                    self@.log_dir,
                    self@.app_name + "_"@ + date_text(fields_of(ms as int)) + ".log"@,
                ),
    {
        let ms: i64 = utc_ms_now();
        self.log_file_at(ms)
    }

    /// The directory of the recordings of the day of an instant.
    pub fn captures_dir_at(&self, ms: i64) -> (r: String)
        requires
            representable(ms as int),
        ensures
            r@ == joined(self@.captures_dir, date_text(fields_of(ms as int))),
    {
        let f = utc_fields(ms);
        join(self.captures_dir.as_str(), format_date(&f).as_str())
    }

    /// The directory of the recordings of today. Nothing is created.
    pub fn captures_dir_today(&self) -> (r: String)
        ensures
            exists|ms: i64| #[trigger]
                representable(ms as int) && r@ == joined(
                    self@.captures_dir,
                    date_text(fields_of(ms as int)),
                ),
    {
        let ms: i64 = utc_ms_now();
        self.captures_dir_at(ms)
    }

    /// The file of a recording made now.
    pub fn capture_path(&self, callsign: &str) -> (r: String)
        ensures
            exists|day: i64, ms: i64| #[trigger]
                representable(day as int) && #[trigger] representable(ms as int) && r@ == joined(
                    joined(self@.captures_dir, date_text(fields_of(day as int))),
                    capture_name(time_text(fields_of(ms as int)), callsign@),
                ),
    {
        let day: i64 = utc_ms_now();
        let dir = self.captures_dir_at(day);
        let ms: i64 = utc_ms_now();
        let f = utc_fields(ms);
        let name = capture_file(format_time_of_day(&f).as_str(), callsign);
        join(dir.as_str(), name.as_str())
    }

    /// The file of a recording that bears the given time and belongs to the day of
    /// an instant.
    pub fn capture_path_on(&self, ms: i64, slot_utc_hhmmss: &str, callsign: &str) -> (r: String)
        requires
            representable(ms as int),
        ensures
            r@ == joined(
                joined(self@.captures_dir, date_text(fields_of(ms as int))),
                capture_name(slot_utc_hhmmss@, callsign@),
            ),
    {
        let dir = self.captures_dir_at(ms);
        let name = capture_file(slot_utc_hhmmss, callsign);
        join(dir.as_str(), name.as_str())
    }

    /// The file of a recording of today that bears the given time.
    pub fn capture_path_at(&self, slot_utc_hhmmss: &str, callsign: &str) -> (r: String)
        ensures
            exists|ms: i64| #[trigger]
                representable(ms as int) && r@ == joined(
                    joined(self@.captures_dir, date_text(fields_of(ms as int))),
                    capture_name(slot_utc_hhmmss@, callsign@),
                ),
    {
        let ms: i64 = utc_ms_now();
        self.capture_path_on(ms, slot_utc_hhmmss, callsign)
    }
}

/// The file name of a recording.
pub fn capture_file(time: &str, callsign: &str) -> (r: String)
    ensures
        r@ == capture_name(time@, callsign@),
{
    let mut name = time.to_owned();
    name.append("_");
    name.append(sanitise(callsign).as_str());
    name.append(".wav");
    name
}

/// The log of contacts of an application below the home directory.
pub fn default_adif_path(app_name: &str) -> (r: String)
    ensures
        exists|home: Option<Seq<char>>| r@ == adif_path(app_name@, #[trigger] root_of(home)),
{
    let home = home_or_here(home_dir());
    let mut name = to_lower(app_name);
    name.append("_log.adi");
    let path = join(home.as_str(), name.as_str());
    assert(path@ == adif_path(app_name@, home@));
    path
}

/// The case of the application's name does not matter.
pub proof fn law_name_case_insensitive(a: Seq<char>, b: Seq<char>, root: Seq<char>)
    requires
        ascii_lower(a) == ascii_lower(b),
    ensures
        layout(a, root) == layout(b, root),
{
}

/// The file name of a recording is a single path component: the callsign adds no
/// slash to it.
pub proof fn law_capture_name_is_one_component(time: Seq<char>, callsign: Seq<char>)
    requires
        forall|i: int| 0 <= i < time.len() ==> #[trigger] time[i] != '/',
    ensures
        forall|i: int|
            0 <= i < capture_name(time, callsign).len() ==> #[trigger] capture_name(time, callsign)[i] != '/',
{
    reveal_strlit("_");
    reveal_strlit(".wav");
    let n = capture_name(time, callsign);
    let s = sanitised(callsign);
    assert forall|i: int| 0 <= i < n.len() implies #[trigger] n[i] != '/' by {
        if i < time.len() {
            assert(n[i] == time[i]);
        } else if i > time.len() && i < time.len() + 1 + s.len() {
            assert(n[i] == s[i - time.len() - 1]);
        }
    }
}

/// Below a directory that does not end in a slash, the application's own
/// directory is the directory, a slash, a dot and the name.
pub proof fn law_config_dir_below_root(app_name: Seq<char>, root: Seq<char>)
    requires
        root.len() > 0,
        root.last() != '/',
    ensures
        layout(app_name, root).config_dir == root + "/"@ + ("."@ + ascii_lower(app_name)),
{
    reveal_strlit(".");
    assert(("."@ + ascii_lower(app_name))[0] == '.');
}

/// Where an application's files lie below a directory that does not end in a slash.
pub proof fn law_where_files_lie(app_name: Seq<char>, root: Seq<char>)
    requires
        root.len() > 0,
        root.last() != '/',
        app_name.len() > 0,
        app_name[0] != '/',
    ensures
        ({
            let p = layout(app_name, root);
            let app = ascii_lower(app_name);
            let dir = root + seq!['/', '.'] + app;
            &&& p.app_name == app
            &&& app_name.last() != '/' ==> {
                &&& p.config_dir == dir
                &&& p.config_file == dir + "/config.toml"@
                &&& p.db_file == dir + seq!['/'] + app + ".sqlite"@
                &&& p.log_dir == dir + "/logs"@
                &&& p.captures_dir == dir + "/captures"@
            }
            &&& p.adif_file == root + seq!['/'] + app + "_log.adi"@
        }),
{
    reveal_strlit(".");
    reveal_strlit("/");
    reveal_strlit("config.toml");
    reveal_strlit("/config.toml");
    reveal_strlit(".sqlite");
    reveal_strlit("logs");
    reveal_strlit("/logs");
    reveal_strlit("captures");
    reveal_strlit("/captures");
    reveal_strlit("_log.adi");
    let p = layout(app_name, root);
    let app = ascii_lower(app_name);
    assert(app[0] == lower_char(app_name[0]));
    assert(app.last() == lower_char(app_name.last()));
    let dir = root + seq!['/', '.'] + app;
    assert(p.config_dir =~= dir);
    assert(p.adif_file =~= root + seq!['/'] + app + "_log.adi"@);
    if app_name.last() != '/' {
        assert(dir.last() != '/');
        assert(p.config_file =~= dir + "/config.toml"@);
        assert(p.db_file =~= dir + seq!['/'] + app + ".sqlite"@);
        assert(p.log_dir =~= dir + "/logs"@);
        assert(p.captures_dir =~= dir + "/captures"@);
    }
}

/// The file of a recording bears its time, the callsign with everything but letters
/// and digits replaced, and the ending of its kind.
pub proof fn law_capture_name_tells(time: Seq<char>, callsign: Seq<char>, i: int)
    ensures
        ({
            let n = capture_name(time, callsign);
            let t = time.len() as int;
            &&& n.len() == time.len() + callsign.len() + 5
            &&& n.subrange(0, t) == time
            &&& n[t] == '_'
            &&& n.subrange(n.len() - 4, n.len() as int) == seq!['.', 'w', 'a', 'v']
            &&& 0 <= i < callsign.len() ==> {
                let c = callsign[i];
                let kept = ('a' <= c <= 'z') || ('A' <= c <= 'Z') || ('0' <= c <= '9');
                n[t + 1 + i] == if kept {
                    c
                } else {
                    '_'
                }
            }
        }),
{
    reveal_strlit("_");
    reveal_strlit(".wav");
    let n = capture_name(time, callsign);
    assert(n.subrange(0, time.len() as int) =~= time);
    assert(n.subrange(n.len() - 4, n.len() as int) =~= seq!['.', 'w', 'a', 'v']);
}

/// A path below another is the two with one slash between them; a part that starts
/// with a slash stands alone.
pub proof fn law_joined_by_one_slash(base: Seq<char>, part: Seq<char>)
    ensures
        part.len() > 0 && part[0] == '/' ==> joined(base, part) == part,
        (part.len() == 0 || part[0] != '/') && base.len() > 0 ==> {
            let end = joined(base, part).len() - part.len();
            &&& joined(base, part).subrange(end, joined(base, part).len() as int) == part
            &&& joined(base, part)[end - 1] == '/'
            &&& joined(base, part).subrange(0, base.len() as int) == base
            &&& end == base.len() || (end == base.len() + 1 && base.last() != '/')
        },
{
    reveal_strlit("/");
    if (part.len() == 0 || part[0] != '/') && base.len() > 0 {
        let j = joined(base, part);
        let end = j.len() - part.len();
        assert(j.subrange(end, j.len() as int) =~= part);
        assert(j.subrange(0, base.len() as int) =~= base);
    }
}

/// Without a home directory everything lies below the current one.
pub proof fn law_without_home(home: Seq<char>)
    ensures
        root_of(None) == seq!['.'],
        root_of(Some(home)) == home,
{
    reveal_strlit(".");
    assert("."@ =~= seq!['.']);
}

} // verus!
