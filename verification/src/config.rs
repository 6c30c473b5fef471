//! Where the token comes from and where it is stored.
use crate::error;
use crate::error::{
    detailed_error, detailed_io, message_error, AppError, AppResult, ErrorView, IoFailure,
    IoFailureView, IoKind,
};
use crate::text;
use crate::text::{decimal_text, trim_text};
use vstd::prelude::*;

verus! {

/// Reads bytes as text with `String::from_utf8`: UTF-8 is read as what it encodes,
/// other bytes are refused.
#[verifier::external_body]
fn text_of_utf8(bytes: Vec<u8>) -> (res: Option<String>)
    ensures
        match res {
            Some(text) => vstd::utf8::valid_utf8(bytes@) && text@ == vstd::utf8::decode_utf8(
                bytes@,
            ),
            None => !vstd::utf8::valid_utf8(bytes@),
        },
{
    String::from_utf8(bytes).ok()
}

// ---------------------------------------------------------------------------
// The environment
// ---------------------------------------------------------------------------

/// A directory that the environment names: its bytes, and whether it is absolute.
#[derive(Debug)]
pub struct ConfigDirectory {
    pub path: Vec<u8>,
    pub absolute: bool,
}

/// What the program takes from the environment. The token need not be text.
#[derive(Debug)]
pub struct EnvironmentSnapshot {
    xdg_config_home: Option<ConfigDirectory>,
    home: Option<Vec<u8>>,
    hf_token: Option<Vec<u8>>,
}

/// The value of an [`EnvironmentSnapshot`].
pub struct EnvironmentView {
    pub xdg_config_home: Option<(Seq<u8>, bool)>,
    pub home: Option<Seq<u8>>,
    pub hf_token: Option<Seq<u8>>,
}

/// The bytes of an optional value.
pub open spec fn optional_bytes(value: Option<Vec<u8>>) -> Option<Seq<u8>> {
    match value {
        Some(bytes) => Some(bytes@),
        None => None,
    }
}

impl View for EnvironmentSnapshot {
    type V = EnvironmentView;

    closed spec fn view(&self) -> EnvironmentView {
        EnvironmentView {
            xdg_config_home: match self.xdg_config_home {
                Some(directory) => Some((directory.path@, directory.absolute)),
                None => None,
            },
            home: optional_bytes(self.home),
            hf_token: optional_bytes(self.hf_token),
        }
    }
}

impl EnvironmentSnapshot {
    pub fn new(
        xdg_config_home: Option<ConfigDirectory>,
        home: Option<Vec<u8>>,
        hf_token: Option<Vec<u8>>,
    ) -> (res: Self)
        ensures
            res@ == (EnvironmentView {
                xdg_config_home: match xdg_config_home {
                    Some(directory) => Some((directory.path@, directory.absolute)),
                    None => None,
                },
                home: optional_bytes(home),
                hf_token: optional_bytes(hf_token),
            }),
    {
        EnvironmentSnapshot { xdg_config_home, home, hf_token }
    }
}

/// A path in the file system: a base, and what is joined to it, one after the other, in
/// the way of the machine.
#[derive(Debug)]
pub struct LocalPath {
    pub base: Vec<u8>,
    pub parts: Vec<Vec<u8>>,
}

/// The value of a [`LocalPath`].
pub struct LocalPathView {
    pub base: Seq<u8>,
    pub parts: Seq<Seq<u8>>,
}

/// The bytes of each part.
pub open spec fn part_views(parts: Seq<Vec<u8>>) -> Seq<Seq<u8>> {
    parts.map_values(|part: Vec<u8>| part@)
}

impl View for LocalPath {
    type V = LocalPathView;

    open spec fn view(&self) -> LocalPathView {
        LocalPathView { base: self.base@, parts: part_views(self.parts@) }
    }
}

impl LocalPath {
    fn copy(&self) -> (res: Self)
        ensures
            res@ == self@,
    {
        let mut parts: Vec<Vec<u8>> = Vec::new();
        let mut i: usize = 0;
        while i < self.parts.len()
            invariant
                i <= self.parts@.len(),
                part_views(parts@) == part_views(self.parts@).take(i as int),
            decreases self.parts@.len() - i,
        {
            let ghost before = parts@;
            parts.push(copy_bytes(&self.parts[i]));
            i = i + 1;
            proof {
                assert(part_views(parts@) =~= part_views(before).push(self.parts@[i - 1]@));
                assert(part_views(parts@) =~= part_views(self.parts@).take(i as int));
            }
        }
        proof {
            assert(part_views(self.parts@).take(i as int) =~= part_views(self.parts@));
        }
        LocalPath { base: copy_bytes(&self.base), parts }
    }
}

/// The bytes of `.config`.
pub open spec fn config_name() -> Seq<u8> {
    seq![0x2e, 0x63, 0x6f, 0x6e, 0x66, 0x69, 0x67]
}

/// The bytes of `xhf`.
pub open spec fn program_name() -> Seq<u8> {
    seq![0x78, 0x68, 0x66]
}

/// The bytes of `token`.
pub open spec fn token_name() -> Seq<u8> {
    seq![0x74, 0x6f, 0x6b, 0x65, 0x6e]
}

pub(crate) fn copy_bytes(bytes: &Vec<u8>) -> (res: Vec<u8>)
    ensures
        res@ == bytes@,
{
    let copy = bytes.clone();
    proof {
        assert(copy@ =~= bytes@);
    }
    copy
}

/// Where the token is stored: in the directory that XDG_CONFIG_HOME names if it is
/// absolute, in the one for configurations in the home directory otherwise.
pub open spec fn stored_at(environment: EnvironmentView) -> Option<LocalPathView> {
    match (environment.xdg_config_home, environment.home) {
        (Some((path, true)), _) => Some(
            LocalPathView { base: path, parts: seq![program_name(), token_name()] },
        ),
        (_, Some(home)) => Some(
            LocalPathView {
                base: home,
                parts: seq![config_name(), program_name(), token_name()],
            },
        ),
        _ => None,
    }
}

/// The token of the environment, unless it is empty.
pub open spec fn set_token(environment: EnvironmentView) -> Option<Seq<u8>> {
    match environment.hf_token {
        Some(token) => if token.len() == 0 {
            None
        } else {
            Some(token)
        },
        None => None,
    }
}

// ---------------------------------------------------------------------------
// Credentials
// ---------------------------------------------------------------------------

#[derive(Clone, Copy, Debug, PartialEq, Eq, Structural)]
pub enum TokenSource {
    Environment,
    File,
}

/// Where the token is.
#[derive(Debug)]
pub struct Credentials {
    token_path: Option<LocalPath>,
    environment_token: Option<Vec<u8>>,
}

/// The value of [`Credentials`].
pub struct CredentialsView {
    pub token_path: Option<LocalPathView>,
    pub environment_token: Option<Seq<u8>>,
}

impl View for Credentials {
    type V = CredentialsView;

    closed spec fn view(&self) -> CredentialsView {
        CredentialsView {
            token_path: match self.token_path {
                Some(path) => Some(path@),
                None => None,
            },
            environment_token: optional_bytes(self.environment_token),
        }
    }
}

/// A token without white space around it. It must not be empty.
pub open spec fn normalized(token: Seq<char>) -> Result<Seq<char>, Seq<char>> {
    if text::trimmed(token).len() == 0 {
        Err("Hugging Face token is empty"@)
    } else {
        Ok(text::trimmed(token))
    }
}

pub fn normalize_token(token: String) -> (res: AppResult<String>)
    ensures
        match res {
            Ok(trimmed) => normalized(token@) == Ok::<Seq<char>, Seq<char>>(trimmed@),
            Err(error) => normalized(token@) matches Err(message) && error::says(error, message),
        },
{
    let token = trim_text(&token);
    if token.as_str().is_empty() {
        return Err(message_error("Hugging Face token is empty"));
    }
    Ok(token)
}

/// Where to look for a token.
#[derive(Debug)]
pub enum TokenLookup {
    /// This is the token.
    Found(String, TokenSource),
    /// It may stand in the file at this path.
    File(LocalPath),
    Absent,
}

/// The value of a [`TokenLookup`].
pub enum TokenLookupView {
    Found(Seq<char>, TokenSource),
    File(LocalPathView),
    Absent,
}

impl View for TokenLookup {
    type V = TokenLookupView;

    open spec fn view(&self) -> TokenLookupView {
        match self {
            TokenLookup::Found(token, source) => TokenLookupView::Found(token@, *source),
            TokenLookup::File(path) => TokenLookupView::File(path@),
            TokenLookup::Absent => TokenLookupView::Absent,
        }
    }
}

/// Where to look for a token: in the environment first, and in the stored file only
/// if the environment holds none.
pub open spec fn looked_up(credentials: CredentialsView) -> Result<TokenLookupView, Seq<char>> {
    match credentials.environment_token {
        Some(bytes) => if !vstd::utf8::valid_utf8(bytes) {
            Err("HF_TOKEN is not valid UTF-8"@)
        } else {
            match normalized(vstd::utf8::decode_utf8(bytes)) {
                Ok(token) => Ok(TokenLookupView::Found(token, TokenSource::Environment)),
                Err(message) => Err(message),
            }
        },
        None => match credentials.token_path {
            Some(path) => Ok(TokenLookupView::File(path)),
            None => Ok(TokenLookupView::Absent),
        },
    }
}

/// The token that reading the stored file gave.
pub open spec fn token_in_file(read: Result<Seq<char>, IoFailureView>, shown: Seq<char>) -> Result<
    Option<Seq<char>>,
    ErrorView,
> {
    match read {
        Ok(contents) => match normalized(contents) {
            Ok(token) => Ok(Some(token)),
            Err(message) => Err(ErrorView::Message(message)),
        },
        Err(source) => if source.kind == IoKind::NotFound {
            Ok(None)
        } else {
            Err(ErrorView::Io { context: "could not read token from "@ + shown, source })
        },
    }
}

/// The token that reading the stored file gave, if there is one.
pub fn accept_token_file(read: Result<String, IoFailure>, shown: &str) -> (res: AppResult<
    Option<(String, TokenSource)>,
>)
    ensures
        ({
            let expected = token_in_file(
                match read {
                    Ok(contents) => Ok(contents@),
                    Err(failure) => Err(failure@),
                },
                shown@,
            );
            match res {
                Ok(Some((token, source))) => source == TokenSource::File && expected == Ok::<
                    Option<Seq<char>>,
                    ErrorView,
                >(Some(token@)),
                Ok(None) => expected == Ok::<Option<Seq<char>>, ErrorView>(None),
                Err(error) => expected == Err::<Option<Seq<char>>, ErrorView>(error@),
            }
        }),
{
    match read {
        Ok(contents) => match normalize_token(contents) {
            Ok(token) => Ok(Some((token, TokenSource::File))),
            Err(error) => Err(error),
        },
        Err(failure) => if failure.kind == IoKind::NotFound {
            Ok(None)
        } else {
            Err(detailed_io("could not read token from ", shown, failure))
        },
    }
}

/// Whether a stored token was removed, by what removing the file gave.
pub open spec fn removal(removed: Result<(), IoFailureView>, shown: Seq<char>) -> Result<
    bool,
    ErrorView,
> {
    match removed {
        Ok(()) => Ok(true),
        Err(source) => if source.kind == IoKind::NotFound {
            Ok(false)
        } else {
            Err(ErrorView::Io { context: "could not remove stored token at "@ + shown, source })
        },
    }
}

/// Whether a stored token was removed, by what removing the file gave.
pub fn accept_removal(removed: Result<(), IoFailure>, shown: &str) -> (res: AppResult<bool>)
    ensures
        match res {
            Ok(value) => removal(io_outcome(removed), shown@) == Ok::<bool, ErrorView>(value),
            Err(error) => removal(io_outcome(removed), shown@) == Err::<bool, ErrorView>(error@),
        },
{
    match removed {
        Ok(()) => Ok(true),
        Err(failure) => if failure.kind == IoKind::NotFound {
            Ok(false)
        } else {
            Err(detailed_io("could not remove stored token at ", shown, failure))
        },
    }
}

/// The value of what an operation of the operating system gave.
pub open spec fn io_outcome(result: Result<(), IoFailure>) -> Result<(), IoFailureView> {
    match result {
        Ok(()) => Ok(()),
        Err(failure) => Err(failure@),
    }
}

impl Credentials {
    pub fn from_environment(environment: &EnvironmentSnapshot) -> (res: Self)
        ensures
            res@.token_path == stored_at(environment@),
            res@.environment_token == set_token(environment@),
    {
        let absolute = match &environment.xdg_config_home {
            Some(directory) => directory.absolute,
            None => false,
        };
        let mut parts: Vec<Vec<u8>> = Vec::new();
        let program: Vec<u8> = vec![0x78, 0x68, 0x66];
        let token: Vec<u8> = vec![0x74, 0x6f, 0x6b, 0x65, 0x6e];
        proof {
            assert(program@ =~= program_name());
            assert(token@ =~= token_name());
        }
        let token_path = if absolute {
            match &environment.xdg_config_home {
                Some(directory) => {
                    parts.push(program);
                    parts.push(token);
                    proof {
                        assert(part_views(parts@) =~= seq![program_name(), token_name()]);
                    }
                    Some(LocalPath { base: copy_bytes(&directory.path), parts })
                },
                None => None,
            }
        } else {
            match &environment.home {
                Some(home) => {
                    let name: Vec<u8> = vec![0x2e, 0x63, 0x6f, 0x6e, 0x66, 0x69, 0x67];
                    proof {
                        assert(name@ =~= config_name());
                    }
                    parts.push(name);
                    parts.push(program);
                    parts.push(token);
                    proof {
                        assert(part_views(parts@) =~= seq![
                            config_name(),
                            program_name(),
                            token_name(),
                        ]);
                    }
                    Some(LocalPath { base: copy_bytes(home), parts })
                },
                None => None,
            }
        };
        let environment_token = match &environment.hf_token {
            Some(token) => if token.len() == 0 {
                None
            } else {
                Some(copy_bytes(token))
            },
            None => None,
        };
        Credentials { token_path, environment_token }
    }

    /// Where to look for a token.
    pub fn load(&self) -> (res: AppResult<TokenLookup>)
        ensures
            match res {
                Ok(lookup) => looked_up(self@) == Ok::<TokenLookupView, Seq<char>>(lookup@),
                Err(error) => looked_up(self@) matches Err(message) && error::says(
                    error,
                    message,
                ),
            },
    {
        match &self.environment_token {
            Some(bytes) => match text_of_utf8(copy_bytes(bytes)) {
                Some(token) => match normalize_token(token) {
                    Ok(token) => Ok(TokenLookup::Found(token, TokenSource::Environment)),
                    Err(error) => Err(error),
                },
                None => Err(message_error("HF_TOKEN is not valid UTF-8")),
            },
            None => match &self.token_path {
                Some(path) => Ok(TokenLookup::File(path.copy())),
                None => Ok(TokenLookup::Absent),
            },
        }
    }

    /// The path at which a token is stored.
    pub fn store(&self) -> (res: AppResult<LocalPath>)
        ensures
            match res {
                Ok(path) => self@.token_path == Some(path@),
                Err(error) => self@.token_path is None && error::says(
                    error,
                    "cannot store a token because neither XDG_CONFIG_HOME nor HOME is available"@,
                ),
            },
    {
        match &self.token_path {
            Some(path) => Ok(path.copy()),
            None => Err(
                message_error(
                    "cannot store a token because neither XDG_CONFIG_HOME nor HOME is available",
                ),
            ),
        }
    }

    pub fn environment_token_is_set(&self) -> (res: bool)
        ensures
            res == (self@.environment_token is Some),
    {
        self.environment_token.is_some()
    }

    pub fn token_path(&self) -> (res: Option<&LocalPath>)
        ensures
            match res {
                Some(path) => self@.token_path == Some(path@),
                None => self@.token_path is None,
            },
    {
        match &self.token_path {
            Some(path) => Some(path),
            None => None,
        }
    }
}

/// A token in the environment is used, or refused; the stored one is not looked at.
pub proof fn lemma_environment_token_precedes_file(environment: EnvironmentView)
    requires
        environment.hf_token matches Some(token) && token.len() > 0,
    ensures
        ({
            let credentials = CredentialsView {
                token_path: stored_at(environment),
                environment_token: set_token(environment),
            };
            match looked_up(credentials) {
                Ok(TokenLookupView::Found(_, source)) => source == TokenSource::Environment,
                Ok(_) => false,
                Err(_) => true,
            }
        }),
{
}

/// An empty token in the environment is ignored.
pub proof fn lemma_empty_environment_token_is_ignored(environment: EnvironmentView)
    requires
        environment.hf_token matches Some(token) ==> token.len() == 0,
    ensures
        set_token(environment) is None,
        looked_up(
            CredentialsView {
                token_path: stored_at(environment),
                environment_token: set_token(environment),
            },
        ) == (match stored_at(environment) {
            Some(path) => Ok::<TokenLookupView, Seq<char>>(TokenLookupView::File(path)),
            None => Ok::<TokenLookupView, Seq<char>>(TokenLookupView::Absent),
        }),
{
}

/// What the file of a stored token holds: the token and the end of its line.
pub open spec fn token_file(token: Seq<char>) -> Seq<char> {
    token + "\n"@
}

/// What is written into the file of a token.
pub fn token_file_contents(token: &str) -> (res: String)
    ensures
        res@ == token_file(token@),
{
    let mut contents = token.to_owned();
    contents.append("\n");
    contents
}

/// What reading the file of the token gives: what it holds, or that it is missing.
pub open spec fn reading(file: Option<Seq<char>>, missing: IoFailureView) -> Result<
    Seq<char>,
    IoFailureView,
> {
    match file {
        Some(contents) => Ok(contents),
        None => Err(missing),
    }
}

/// What removing the file of the token gives: success, or that it is missing.
pub open spec fn removing(file: Option<Seq<char>>, missing: IoFailureView) -> Result<
    (),
    IoFailureView,
> {
    match file {
        Some(_) => Ok(()),
        None => Err(missing),
    }
}

/// A stored token is loaded from the file without the white space around it, unless the
/// environment holds one. Removing it succeeds once; from then on there is none, neither
/// to load nor to remove.
pub proof fn lemma_stored_token_is_loaded_until_it_is_removed(
    credentials: CredentialsView,
    token: Seq<char>,
    missing: IoFailureView,
    shown: Seq<char>,
)
    requires
        credentials.environment_token is None,
        credentials.token_path is Some,
        text::trimmed(token).len() > 0,
        missing.kind == IoKind::NotFound,
    ensures
        looked_up(credentials) == Ok::<TokenLookupView, Seq<char>>(
            TokenLookupView::File(credentials.token_path->0),
        ),
        token_in_file(reading(Some(token_file(token)), missing), shown) == Ok::<
            Option<Seq<char>>,
            ErrorView,
        >(Some(text::trimmed(token))),
        removal(removing(Some(token_file(token)), missing), shown) == Ok::<bool, ErrorView>(true),
        token_in_file(reading(None, missing), shown) == Ok::<Option<Seq<char>>, ErrorView>(None),
        removal(removing(None, missing), shown) == Ok::<bool, ErrorView>(false),
{
    reveal_strlit("\n");
    let contents = token_file(token);
    assert(contents.drop_last() =~= token);
    assert(contents.last() == '\n');
    assert(text::trimmed(contents) == text::trimmed(token));
}

// ---------------------------------------------------------------------------
// Temporary files
// ---------------------------------------------------------------------------

/// How many names are tried for a temporary file.
pub const TEMPORARY_ATTEMPTS: u16 = 100;

/// The name of a temporary file.
pub open spec fn temporary_file(stem: Seq<char>, process: nat, attempt: nat) -> Seq<char> {
    "."@ + stem + "-"@ + text::decimal(process) + "-"@ + text::decimal(attempt) + ".tmp"@
}

pub fn temporary_name(stem: &str, process: u32, attempt: u16) -> (res: String)
    ensures
        res@ == temporary_file(stem@, process as nat, attempt as nat),
{
    let mut name = ".".to_owned();
    name.append(stem);
    name.append("-");
    name.append(&decimal_text(process as u64));
    name.append("-");
    name.append(&decimal_text(attempt as u64));
    name.append(".tmp");
    name
}

/// The attempt that follows one that failed: another name is tried as long as names
/// are taken.
pub open spec fn following_attempt(attempt: nat, failure: IoFailureView, directory: Seq<char>) -> Result<
    nat,
    ErrorView,
> {
    if failure.kind != IoKind::AlreadyExists {
        Err(
            ErrorView::Io {
                context: "could not create temporary credential file in "@ + directory,
                source: failure,
            },
        )
    } else if attempt + 1 >= TEMPORARY_ATTEMPTS {
        Err(
            ErrorView::Message(
                "could not allocate a temporary credential file in "@ + directory,
            ),
        )
    } else {
        Ok(attempt + 1)
    }
}

pub fn next_attempt(attempt: u16, failure: IoFailure, directory: &str) -> (res: AppResult<u16>)
    ensures
        match res {
            Ok(next) => following_attempt(attempt as nat, failure@, directory@) == Ok::<
                nat,
                ErrorView,
            >(next as nat),
            Err(error) => following_attempt(attempt as nat, failure@, directory@) == Err::<
                nat,
                ErrorView,
            >(error@),
        },
{
    if failure.kind != IoKind::AlreadyExists {
        return Err(
            detailed_io("could not create temporary credential file in ", directory, failure),
        );
    }
    if attempt >= TEMPORARY_ATTEMPTS - 1 {
        return Err(
            detailed_error("could not allocate a temporary credential file in ", directory),
        );
    }
    Ok(attempt + 1)
}

/// An error, joined with the error of removing what was left behind. What was not
/// there needs no removal.
pub open spec fn after_cleanup(
    original: ErrorView,
    removed: Result<(), IoFailureView>,
    leftover: Seq<char>,
) -> ErrorView {
    match removed {
        Ok(()) => original,
        Err(failure) => if failure.kind == IoKind::NotFound {
            original
        } else {
            error::joined(original, "could not remove "@ + leftover + ": "@ + failure.text)
        },
    }
}

/// The error that stands after what was left behind was removed, or could not be.
pub fn cleanup_after_error(original: AppError, removed: Result<(), IoFailure>, leftover: &str) -> (res:
    AppError)
    ensures
        res@ == after_cleanup(original@, io_outcome(removed), leftover@),
{
    match removed {
        Ok(()) => original,
        Err(failure) => if failure.kind == IoKind::NotFound {
            original
        } else {
            let mut second = "could not remove ".to_owned();
            second.append(leftover);
            second.append(": ");
            second.append(&failure.text);
            error::join_errors(&original, &second)
        },
    }
}

// ---------------------------------------------------------------------------
// Laws
// ---------------------------------------------------------------------------

/// The bytes of a value that may be missing, of each part, and of what the operating system
/// gave, are those of what is there.
pub proof fn lemma_values_of_bytes(
    value: Option<Vec<u8>>,
    parts: Seq<Vec<u8>>,
    result: Result<(), IoFailure>,
)
    ensures
        value is None <==> optional_bytes(value) is None,
        value matches Some(bytes) ==> optional_bytes(value) == Some(bytes@),
        part_views(parts).len() == parts.len(),
        forall|i: int| 0 <= i < parts.len() ==> #[trigger] part_views(parts)[i] == parts[i]@,
        result is Ok <==> io_outcome(result) is Ok,
        result matches Err(failure) ==> io_outcome(result) == Err::<(), IoFailureView>(failure@),
{
}

/// The token is stored below the directory for configurations, if that is absolute, and below
/// `.config` in the home directory otherwise: there in `xhf`, in the file `token`. A relative
/// directory for configurations counts as none.
pub proof fn lemma_token_has_one_place(
    environment: EnvironmentView,
    directory: Seq<u8>,
    home: Seq<u8>,
)
    ensures
        ({
            let name = seq!['x' as u8, 'h' as u8, 'f' as u8];
            let file = seq!['t' as u8, 'o' as u8, 'k' as u8, 'e' as u8, 'n' as u8];
            let config = seq![
                '.' as u8,
                'c' as u8,
                'o' as u8,
                'n' as u8,
                'f' as u8,
                'i' as u8,
                'g' as u8,
            ];
            &&& environment.xdg_config_home == Some((directory, true)) ==> stored_at(environment)
                == Some(LocalPathView { base: directory, parts: seq![name, file] })
            &&& environment.xdg_config_home != Some((directory, true)) && (
            environment.xdg_config_home is None || environment.xdg_config_home == Some(
                (directory, false),
            )) && environment.home == Some(home) ==> stored_at(environment) == Some(
                LocalPathView { base: home, parts: seq![config, name, file] },
            )
            &&& environment.home is None && (environment.xdg_config_home is None
                || environment.xdg_config_home == Some((directory, false))) ==> stored_at(
                environment,
            ) is None
        }),
{
    assert(program_name() =~= seq!['x' as u8, 'h' as u8, 'f' as u8]);
    assert(token_name() =~= seq!['t' as u8, 'o' as u8, 'k' as u8, 'e' as u8, 'n' as u8]);
    assert(config_name() =~= seq![
        '.' as u8,
        'c' as u8,
        'o' as u8,
        'n' as u8,
        'f' as u8,
        'i' as u8,
        'g' as u8,
    ]);
}

/// A token in the environment is taken as it is, unless it is empty.
pub proof fn lemma_environment_token_is_kept(environment: EnvironmentView, token: Seq<u8>)
    ensures
        set_token(environment) == Some(token) <==> environment.hf_token == Some(token)
            && token.len() > 0,
{
}

/// A token is what stands between the white space around it; where there is nothing else, it
/// is refused. This holds of a token of the environment, which must be UTF-8, and of one in
/// the file alike.
pub proof fn lemma_token_stands_between_white_space(
    credentials: CredentialsView,
    left: Seq<char>,
    token: Seq<char>,
    right: Seq<char>,
    shown: Seq<char>,
)
    requires
        forall|i: int| 0 <= i < left.len() ==> text::is_white_space(#[trigger] left[i]),
        forall|i: int| 0 <= i < right.len() ==> text::is_white_space(#[trigger] right[i]),
        token.len() > 0 ==> !text::is_white_space(token[0]) && !text::is_white_space(token.last()),
    ensures
        token.len() > 0 ==> normalized(left + token + right) == Ok::<Seq<char>, Seq<char>>(token),
        token.len() == 0 ==> normalized(left + token + right) == Err::<Seq<char>, Seq<char>>(
            "Hugging Face token is empty"@,
        ),
        token.len() > 0 ==> token_in_file(Ok(left + token + right), shown) == Ok::<
            Option<Seq<char>>,
            ErrorView,
        >(Some(token)),
        token.len() == 0 ==> token_in_file(Ok(left + token + right), shown) == Err::<
            Option<Seq<char>>,
            ErrorView,
        >(ErrorView::Message("Hugging Face token is empty"@)),
        credentials.environment_token matches Some(bytes) ==> {
            &&& !vstd::utf8::valid_utf8(bytes) ==> looked_up(credentials) == Err::<
                TokenLookupView,
                Seq<char>,
            >("HF_TOKEN is not valid UTF-8"@)
            &&& vstd::utf8::valid_utf8(bytes) && vstd::utf8::decode_utf8(bytes) == left + token
                + right && token.len() > 0 ==> looked_up(credentials) == Ok::<
                TokenLookupView,
                Seq<char>,
            >(TokenLookupView::Found(token, TokenSource::Environment))
            &&& vstd::utf8::valid_utf8(bytes) && vstd::utf8::decode_utf8(bytes) == left + token
                + right && token.len() == 0 ==> looked_up(credentials) == Err::<
                TokenLookupView,
                Seq<char>,
            >("Hugging Face token is empty"@)
        },
        credentials.environment_token is None ==> looked_up(credentials) == Ok::<
            TokenLookupView,
            Seq<char>,
        >(
            match credentials.token_path {
                Some(path) => TokenLookupView::File(path),
                None => TokenLookupView::Absent,
            },
        ),
{
    text::lemma_text_inside_white_space(left, token, right);
}

/// A token that is stored is loaded again, exactly.
pub proof fn lemma_stored_token_is_loaded_exactly(token: Seq<char>, shown: Seq<char>)
    requires
        token.len() > 0,
        !text::is_white_space(token[0]),
        !text::is_white_space(token.last()),
    ensures
        token_file(token) == token.push('\n'),
        token_in_file(Ok(token_file(token)), shown) == Ok::<Option<Seq<char>>, ErrorView>(
            Some(token),
        ),
{
    reveal_strlit("\n");
    assert(token_file(token) =~= token.push('\n'));
    assert(token_file(token) =~= Seq::<char>::empty() + token + seq!['\n']);
    text::lemma_white_space('\n');
    text::lemma_text_inside_white_space(Seq::empty(), token, seq!['\n']);
}

/// A file that is missing is no failure: there is no token to load or to remove. Any other
/// failure is reported with the path.
pub proof fn lemma_missing_token_is_no_failure(source: IoFailureView, shown: Seq<char>)
    ensures
        source.kind == IoKind::NotFound ==> token_in_file(Err(source), shown) == Ok::<
            Option<Seq<char>>,
            ErrorView,
        >(None),
        source.kind != IoKind::NotFound ==> token_in_file(Err(source), shown) == Err::<
            Option<Seq<char>>,
            ErrorView,
        >(ErrorView::Io { context: "could not read token from "@ + shown, source }),
        removal(Ok(()), shown) == Ok::<bool, ErrorView>(true),
        source.kind == IoKind::NotFound ==> removal(Err(source), shown) == Ok::<bool, ErrorView>(
            false,
        ),
        source.kind != IoKind::NotFound ==> removal(Err(source), shown) == Err::<bool, ErrorView>(
            ErrorView::Io { context: "could not remove stored token at "@ + shown, source },
        ),
{
}

/// A hundred names are tried for a temporary file, one after the other, as long as they are
/// taken; any other failure ends the attempts at once.
pub proof fn lemma_a_hundred_names_are_tried(
    attempt: nat,
    failure: IoFailureView,
    directory: Seq<char>,
)
    ensures
        following_attempt(attempt, failure, directory) == Ok::<nat, ErrorView>(attempt + 1)
            <==> failure.kind == IoKind::AlreadyExists && attempt < 99,
        following_attempt(attempt, failure, directory) matches Ok(next) ==> next == attempt + 1,
        failure.kind == IoKind::AlreadyExists && attempt >= 99 ==> following_attempt(
            attempt,
            failure,
            directory,
        ) == Err::<nat, ErrorView>(
            ErrorView::Message(
                "could not allocate a temporary credential file in "@ + directory,
            ),
        ),
        failure.kind != IoKind::AlreadyExists ==> following_attempt(attempt, failure, directory)
            == Err::<nat, ErrorView>(
            ErrorView::Io {
                context: "could not create temporary credential file in "@ + directory,
                source: failure,
            },
        ),
{
}

/// A temporary file is hidden and named after the file, the process and the attempt; no two
/// attempts have the same name.
pub proof fn lemma_attempts_have_different_names(
    stem: Seq<char>,
    process: nat,
    attempt: nat,
    other: nat,
)
    ensures
        temporary_file(stem, process, attempt) == seq!['.'] + stem + seq!['-'] + text::decimal(
            process,
        ) + seq!['-'] + text::decimal(attempt) + ".tmp"@,
        attempt != other ==> temporary_file(stem, process, attempt) != temporary_file(
            stem,
            process,
            other,
        ),
{
    reveal_strlit(".");
    reveal_strlit("-");
    reveal_strlit(".tmp");
    assert("."@ =~= seq!['.']);
    assert("-"@ =~= seq!['-']);
    let lead = seq!['.'] + stem + seq!['-'] + text::decimal(process) + seq!['-'];
    let name = temporary_file(stem, process, attempt);
    assert(name =~= lead + text::decimal(attempt) + ".tmp"@);
    if attempt != other {
        let second = temporary_file(stem, process, other);
        assert(second =~= lead + text::decimal(other) + ".tmp"@);
        if name == second {
            let n = lead.len() as int;
            assert(name.subrange(n, name.len() - 4) =~= text::decimal(attempt));
            assert(second.subrange(n, second.len() - 4) =~= text::decimal(other));
            let max = attempt + other;
            text::lemma_number_is_read_as_written(attempt, max);
            text::lemma_number_is_read_as_written(other, max);
        }
    }
}

/// What was left behind and removed, or was not there, changes no error; what could not be
/// removed is told behind it.
pub proof fn lemma_cleaning_up_keeps_the_error(
    original: ErrorView,
    failure: IoFailureView,
    leftover: Seq<char>,
)
    ensures
        after_cleanup(original, Ok(()), leftover) == original,
        failure.kind == IoKind::NotFound ==> after_cleanup(original, Err(failure), leftover)
            == original,
        failure.kind != IoKind::NotFound ==> after_cleanup(
            original,
            Err(failure),
            leftover,
        ).wording() == original.wording() + "; additionally "@ + ("could not remove "@ + leftover
            + ": "@ + failure.text),
{
}

} // verus!
