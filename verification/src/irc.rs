use crate::text::{
    chars_of, drop_empty, find_char, find_pair, find_pair_in, first_index, join, last_index,
    lemma_find_pair, lemma_first_index, lemma_first_index_is, lemma_join_push, lemma_last_index,
    lemma_split, rfind_char, split, split_str, strs_view, trim_start, trim_start_str,
};
use vstd::prelude::*;
use vstd::string::*;

verus! {

/// Why a line could not be parsed.
#[derive(Debug, Clone, Copy, PartialEq, Eq, Structural)]
pub enum ParseError {
    /// The line ended where tags, a prefix or a command had to follow.
    UnexpectedEnd,
    /// The line has no command name.
    CommandExpected,
}

impl ParseError {
    /// The error in words.
    pub fn message(&self) -> (text: &'static str)
        ensures
            text@ == match *self {
                ParseError::UnexpectedEnd => "Unexpected end of input"@,
                ParseError::CommandExpected => "Command expected"@,
            },
    {
        match self {
            ParseError::UnexpectedEnd => "Unexpected end of input",
            ParseError::CommandExpected => "Command expected",
        }
    }
}

// ---------------------------------------------------------------------------
// The model: a message as plain sequences
// ---------------------------------------------------------------------------
/// One tag: its key and, if it has one, its value.
pub type TagView = (Seq<char>, Option<Seq<char>>);

/// The prefix of a message.
pub enum PrefixView {
    Full { nick: Seq<char>, user: Seq<char>, host: Seq<char> },
    UserHost { user: Seq<char>, host: Seq<char> },
    Host(Seq<char>),
    Absent,
}

/// A message: tags in insertion order, prefix, command name, arguments and
/// trailing text.
pub struct MessageView {
    pub tags: Seq<TagView>,
    pub prefix: PrefixView,
    pub name: Seq<char>,
    pub args: Seq<Seq<char>>,
    pub trailing: Option<Seq<char>>,
}

/// The view of an optional string slice.
pub open spec fn opt_view(o: Option<&str>) -> Option<Seq<char>> {
    match o {
        Some(s) => Some(s@),
        None => None,
    }
}

/// The keys of the tags, in order.
pub open spec fn tag_keys(tags: Seq<TagView>) -> Seq<Seq<char>> {
    Seq::new(tags.len(), |i: int| tags[i].0)
}

/// The tags after `key` has been set to `value`: a known key keeps its
/// place and takes the new value, a new key goes to the end.
pub open spec fn tags_insert(tags: Seq<TagView>, key: Seq<char>, value: Option<Seq<char>>) -> Seq<
    TagView,
> {
    let i = first_index(tag_keys(tags), key);
    if 0 <= i < tags.len() {
        tags.update(i, (key, value))
    } else {
        tags.push((key, value))
    }
}

/// What the tags hold for `key`: nothing, a tag without a value, or a value.
pub open spec fn tags_get(tags: Seq<TagView>, key: Seq<char>) -> Option<Option<Seq<char>>> {
    let i = first_index(tag_keys(tags), key);
    if 0 <= i < tags.len() {
        Some(tags[i].1)
    } else {
        None
    }
}

// ---------------------------------------------------------------------------
// The grammar
// ---------------------------------------------------------------------------
/// One `key[=value]` pair, split at its first `=`.
pub open spec fn tag_of(pair: Seq<char>) -> TagView {
    let i = first_index(pair, '=');
    if 0 <= i < pair.len() {
        (pair.take(i), Some(pair.skip(i + 1)))
    } else {
        (pair, None)
    }
}

/// The tags that a list of pairs gives, empty pairs left out.
pub open spec fn tags_from(pairs: Seq<Seq<char>>) -> Seq<TagView>
    decreases pairs.len(),
{
    if pairs.len() == 0 {
        Seq::empty()
    } else if pairs.last().len() == 0 {
        tags_from(pairs.drop_last())
    } else {
        tags_insert(tags_from(pairs.drop_last()), tag_of(pairs.last()).0, tag_of(pairs.last()).1)
    }
}

/// The tags of a tag section (the text between `@` and the next space).
pub open spec fn tags_of(section: Seq<char>) -> Seq<TagView> {
    tags_from(split(section, ';'))
}

/// The prefix that a prefix text (between `:` and the next space) denotes.
pub open spec fn prefix_of(text: Seq<char>) -> PrefixView {
    let at = last_index(text, '@');
    if at < 0 {
        PrefixView::Host(text)
    } else {
        let left = text.take(at);
        let host = text.skip(at + 1);
        let bang = last_index(left, '!');
        if bang < 0 {
            PrefixView::UserHost { user: left, host }
        } else {
            PrefixView::Full { nick: left.take(bang), user: left.skip(bang + 1), host }
        }
    }
}

/// The message that the command part of a line gives, with the tags and
/// prefix read before it.
pub open spec fn command_of(tags: Seq<TagView>, prefix: PrefixView, rest: Seq<char>) -> Result<
    MessageView,
    ParseError,
> {
    let cut = find_pair(rest, ' ', ':');
    let found = 0 <= cut < rest.len();
    let section = if found {
        rest.take(cut)
    } else {
        rest
    };
    let trailing = if found {
        Some(rest.skip(cut + 2))
    } else {
        None
    };
    let tokens = split(section, ' ');
    if tokens[0].len() == 0 {
        Err(ParseError::CommandExpected)
    } else {
        Ok(
            MessageView {
                tags,
                prefix,
                name: tokens[0],
                args: drop_empty(tokens.drop_first()),
                trailing,
            },
        )
    }
}

/// The message that the line gives from its prefix on.
pub open spec fn after_tags(tags: Seq<TagView>, rest: Seq<char>) -> Result<
    MessageView,
    ParseError,
> {
    if rest.len() == 0 {
        Err(ParseError::UnexpectedEnd)
    } else if rest[0] == ':' {
        let end = first_index(rest, ' ');
        if 0 <= end < rest.len() {
            command_of(tags, prefix_of(rest.subrange(1, end)), rest.skip(end + 1))
        } else {
            Err(ParseError::UnexpectedEnd)
        }
    } else {
        command_of(tags, PrefixView::Absent, rest)
    }
}

/// What a line parses to.
pub open spec fn parsed(line: Seq<char>) -> Result<MessageView, ParseError> {
    if line.len() == 0 {
        Err(ParseError::UnexpectedEnd)
    } else if line[0] == '@' {
        let end = first_index(line, ' ');
        if 0 <= end < line.len() {
            after_tags(tags_of(line.subrange(1, end)), line.skip(end + 1))
        } else {
            Err(ParseError::UnexpectedEnd)
        }
    } else {
        after_tags(Seq::empty(), line)
    }
}

// ---------------------------------------------------------------------------
// The wire text of a message
// ---------------------------------------------------------------------------
/// One tag as text: `key=value`, or the bare key.
pub open spec fn tag_text(tag: TagView) -> Seq<char> {
    match tag.1 {
        Some(value) => tag.0 + seq!['='] + value,
        None => tag.0,
    }
}

/// The tags as texts, in order.
pub open spec fn tag_texts(tags: Seq<TagView>) -> Seq<Seq<char>> {
    Seq::new(tags.len(), |i: int| tag_text(tags[i]))
}

/// The prefix as text, with its leading colon; empty for no prefix.
pub open spec fn prefix_text(prefix: PrefixView) -> Seq<char> {
    match prefix {
        PrefixView::Full { nick, user, host } => seq![':'] + nick + seq!['!'] + user + seq!['@']
            + host,
        PrefixView::UserHost { user, host } => seq![':'] + user + seq!['@'] + host,
        PrefixView::Host(host) => seq![':'] + host,
        PrefixView::Absent => Seq::empty(),
    }
}

/// The tag section with `@` before and a space after; empty without tags.
pub open spec fn tags_part(tags: Seq<TagView>) -> Seq<char> {
    if tags.len() == 0 {
        Seq::empty()
    } else {
        seq!['@'] + join(tag_texts(tags), ';') + seq![' ']
    }
}

/// The prefix with a space after; empty without a prefix.
pub open spec fn prefix_part(prefix: PrefixView) -> Seq<char> {
    if prefix is Absent {
        Seq::empty()
    } else {
        prefix_text(prefix) + seq![' ']
    }
}

/// The command name and its arguments, separated by single spaces.
pub open spec fn command_text(name: Seq<char>, args: Seq<Seq<char>>) -> Seq<char> {
    join(seq![name] + args, ' ')
}

/// The trailing text behind ` :`; empty without a trailing.
pub open spec fn trailing_part(trailing: Option<Seq<char>>) -> Seq<char> {
    match trailing {
        Some(text) => seq![' ', ':'] + text,
        None => Seq::empty(),
    }
}

/// The line that a message is written as.
pub open spec fn wire(m: MessageView) -> Seq<char> {
    tags_part(m.tags) + prefix_part(m.prefix) + command_text(m.name, m.args) + trailing_part(
        m.trailing,
    )
}

// ---------------------------------------------------------------------------
// Tags
// ---------------------------------------------------------------------------
/// The tags of a message: each key once, in the order in which the keys
/// were first set.
#[derive(Debug)]
pub struct Tags<'a> {
    entries: Vec<(&'a str, Option<&'a str>)>,
}

impl<'a> View for Tags<'a> {
    type V = Seq<TagView>;

    closed spec fn view(&self) -> Seq<TagView> {
        Seq::new(self.entries@.len(), |i: int| (self.entries@[i].0@, opt_view(self.entries@[i].1)))
    }
}

impl<'a> Tags<'a> {
    /// No tags.
    pub fn new() -> (tags: Tags<'a>)
        ensures
            tags@ == Seq::<TagView>::empty(),
    {
        let tags = Tags { entries: Vec::new() };
        assert(tags@ =~= Seq::<TagView>::empty());
        tags
    }

    /// How many tags there are.
    pub fn len(&self) -> (n: usize)
        ensures
            n == self@.len(),
    {
        self.entries.len()
    }

    /// Whether there is no tag.
    pub fn is_empty(&self) -> (b: bool)
        ensures
            b == (self@.len() == 0),
    {
        self.entries.len() == 0
    }

    fn position(&self, key: &str) -> (i: usize)
        ensures
            i == first_index(tag_keys(self@), key@),
            i <= self@.len(),
    {
        let n = self.entries.len();
        let mut i: usize = 0;
        while i < n && !(*self.entries[i].0 == *key)
            invariant
                n == self.entries.len(),
                i <= n,
                forall|j: int| 0 <= j < i ==> self.entries@[j].0@ != key@,
            decreases n - i,
        {
            i = i + 1;
        }
        proof {
            lemma_first_index_is(tag_keys(self@), key@, i as int);
        }
        i
    }

    /// Sets `key` to `value`.
    pub fn insert(&mut self, key: &'a str, value: Option<&'a str>)
        ensures
            final(self)@ == tags_insert(old(self)@, key@, opt_view(value)),
    {
        let i = self.position(key);
        if i < self.entries.len() {
            self.entries.set(i, (key, value));
        } else {
            self.entries.push((key, value));
        }
        assert(self@ =~= tags_insert(old(self)@, key@, opt_view(value)));
    }

    /// What the tags hold for `key`: `None` without such a tag, `Some(None)`
    /// for a tag without a value.
    pub fn get(&self, key: &str) -> (r: Option<Option<&'a str>>)
        ensures
            match r {
                Some(value) => tags_get(self@, key@) == Some(opt_view(value)),
                None => tags_get(self@, key@) is None,
            },
    {
        let i = self.position(key);
        if i < self.entries.len() {
            Some(self.entries[i].1)
        } else {
            None
        }
    }
}

// ---------------------------------------------------------------------------
// Prefix, command, message
// ---------------------------------------------------------------------------
/// Who sent a message, as far as the line says.
#[derive(Debug)]
pub enum Prefix<'a> {
    Full { nick: &'a str, user: &'a str, host: &'a str },
    UserHost { user: &'a str, host: &'a str },
    Host(&'a str),
    Absent,
}

impl<'a> View for Prefix<'a> {
    type V = PrefixView;

    open spec fn view(&self) -> PrefixView {
        match *self {
            Prefix::Full { nick, user, host } => PrefixView::Full {
                nick: nick@,
                user: user@,
                host: host@,
            },
            Prefix::UserHost { user, host } => PrefixView::UserHost { user: user@, host: host@ },
            Prefix::Host(host) => PrefixView::Host(host@),
            Prefix::Absent => PrefixView::Absent,
        }
    }
}

impl<'a> Default for Prefix<'a> {
    fn default() -> (p: Self)
        ensures
            p@ == PrefixView::Absent,
    {
        Prefix::Absent
    }
}

/// The command of a message: its name and its arguments, without the
/// trailing text.
#[derive(Debug)]
pub struct Command<'a> {
    pub name: &'a str,
    pub args: Vec<&'a str>,
}

impl<'a> Default for Command<'a> {
    fn default() -> (c: Self)
        ensures
            c.name@ == Seq::<char>::empty(),
            c.args@ == Seq::<&str>::empty(),
    {
        proof {
            reveal_strlit("");
        }
        Command { name: "", args: Vec::new() }
    }
}

/// One message of the chat protocol.
#[derive(Debug)]
pub struct Message<'a> {
    pub tags: Tags<'a>,
    pub prefix: Prefix<'a>,
    pub command: Command<'a>,
    pub trailing: Option<&'a str>,
}

impl<'a> View for Message<'a> {
    type V = MessageView;

    open spec fn view(&self) -> MessageView {
        MessageView {
            tags: self.tags@,
            prefix: self.prefix@,
            name: self.command.name@,
            args: strs_view(self.command.args@),
            trailing: opt_view(self.trailing),
        }
    }
}

/// The view of a parse result.
pub open spec fn result_view(r: Result<Message, ParseError>) -> Result<MessageView, ParseError> {
    match r {
        Ok(m) => Ok(m@),
        Err(e) => Err(e),
    }
}

/// The message with nothing in it.
pub open spec fn empty_message() -> MessageView {
    MessageView {
        tags: Seq::empty(),
        prefix: PrefixView::Absent,
        name: Seq::empty(),
        args: Seq::empty(),
        trailing: None,
    }
}

impl<'a> Default for Message<'a> {
    fn default() -> (m: Self)
        ensures
            m@ == empty_message(),
    {
        let m = Message {
            tags: Tags::new(),
            prefix: Prefix::Absent,
            command: Command::default(),
            trailing: None,
        };
        assert(m@.args =~= Seq::<Seq<char>>::empty());
        m
    }
}

fn parse_tag<'a>(pair: &'a str) -> (r: (&'a str, Option<&'a str>))
    ensures
        (r.0@, opt_view(r.1)) == tag_of(pair@),
{
    let chars = chars_of(pair);
    let n = chars.len();
    let i = find_char(&chars, '=');
    if i < n {
        (pair.substring_char(0, i), Some(pair.substring_char(i + 1, n)))
    } else {
        (pair, None)
    }
}

fn parse_tags<'a>(section: &'a str) -> (tags: Tags<'a>)
    ensures
        tags@ == tags_of(section@),
{
    let pairs = split_str(section, ';');
    let mut tags = Tags::new();
    let mut k: usize = 0;
    assert(strs_view(pairs@).take(0) =~= Seq::<Seq<char>>::empty());
    while k < pairs.len()
        invariant
            k <= pairs.len(),
            tags@ == tags_from(strs_view(pairs@).take(k as int)),
        decreases pairs.len() - k,
    {
        let pair = pairs[k];
        proof {
            let next = strs_view(pairs@).take(k + 1);
            assert(next.drop_last() =~= strs_view(pairs@).take(k as int));
            assert(next.last() == pair@);
        }
        if !pair.is_empty() {
            let (key, value) = parse_tag(pair);
            tags.insert(key, value);
        }
        k = k + 1;
    }
    assert(strs_view(pairs@).take(k as int) =~= strs_view(pairs@));
    tags
}

fn parse_prefix<'a>(text: &'a str) -> (prefix: Prefix<'a>)
    ensures
        prefix@ == prefix_of(text@),
{
    let chars = chars_of(text);
    let n = chars.len();
    match rfind_char(&chars, '@') {
        Option::None => Prefix::Host(text),
        Option::Some(at) => {
            let host = text.substring_char(at + 1, n);
            let left = text.substring_char(0, at);
            let left_chars = chars_of(left);
            assert(host@ =~= text@.skip(at + 1));
            match rfind_char(&left_chars, '!') {
                Option::None => Prefix::UserHost { user: left, host },
                Option::Some(bang) => {
                    let nick = left.substring_char(0, bang);
                    let user = left.substring_char(bang + 1, left_chars.len());
                    assert(user@ =~= left@.skip(bang + 1));
                    Prefix::Full { nick, user, host }
                },
            }
        },
    }
}

fn parse_command<'a>(tags: Tags<'a>, prefix: Prefix<'a>, rest: &'a str) -> (r: Result<
    Message<'a>,
    ParseError,
>)
    ensures
        result_view(r) == command_of(tags@, prefix@, rest@),
{
    let chars = chars_of(rest);
    let n = chars.len();
    let cut = find_pair_in(&chars, ' ', ':');
    proof {
        lemma_find_pair(rest@, ' ', ':');
    }
    let section = if cut < n {
        rest.substring_char(0, cut)
    } else {
        rest
    };
    let trailing = if cut < n {
        let text = rest.substring_char(cut + 2, n);
        assert(text@ =~= rest@.skip(cut + 2));
        Some(text)
    } else {
        None
    };
    let tokens = split_str(section, ' ');
    proof {
        lemma_split(section@, ' ');
    }
    let name = tokens[0];
    if name.is_empty() {
        return Err(ParseError::CommandExpected);
    }
    let mut args: Vec<&'a str> = Vec::new();
    let mut k: usize = 1;
    assert(strs_view(tokens@).subrange(1, 1) =~= Seq::<Seq<char>>::empty());
    while k < tokens.len()
        invariant
            1 <= k <= tokens.len(),
            strs_view(args@) == drop_empty(strs_view(tokens@).subrange(1, k as int)),
        decreases tokens.len() - k,
    {
        let token = tokens[k];
        let ghost before = args@;
        proof {
            let next = strs_view(tokens@).subrange(1, k + 1);
            assert(next.drop_last() =~= strs_view(tokens@).subrange(1, k as int));
            assert(next.last() == token@);
        }
        if !token.is_empty() {
            args.push(token);
            assert(strs_view(args@) =~= strs_view(before).push(token@));
        }
        k = k + 1;
    }
    assert(strs_view(tokens@).subrange(1, k as int) =~= strs_view(tokens@).drop_first());
    Ok(Message { tags, prefix, command: Command { name, args }, trailing })
}

fn parse_after_tags<'a>(tags: Tags<'a>, rest: &'a str) -> (r: Result<Message<'a>, ParseError>)
    ensures
        result_view(r) == after_tags(tags@, rest@),
{
    let chars = chars_of(rest);
    let n = chars.len();
    if n == 0 {
        return Err(ParseError::UnexpectedEnd);
    }
    if chars[0] == ':' {
        let end = find_char(&chars, ' ');
        if end >= n {
            return Err(ParseError::UnexpectedEnd);
        }
        proof {
            lemma_first_index(rest@, ' ');
        }
        let prefix = parse_prefix(rest.substring_char(1, end));
        let tail = rest.substring_char(end + 1, n);
        assert(tail@ =~= rest@.skip(end + 1));
        parse_command(tags, prefix, tail)
    } else {
        parse_command(tags, Prefix::Absent, rest)
    }
}

impl<'a> Message<'a> {
    /// Parses one line, without its line ending.
    pub fn parse(raw: &'a str) -> (r: Result<Message<'a>, ParseError>)
        ensures
            result_view(r) == parsed(raw@),
    {
        let chars = chars_of(raw);
        let n = chars.len();
        if n == 0 {
            return Err(ParseError::UnexpectedEnd);
        }
        if chars[0] == '@' {
            let end = find_char(&chars, ' ');
            if end >= n {
                return Err(ParseError::UnexpectedEnd);
            }
            proof {
                lemma_first_index(raw@, ' ');
            }
            let tags = parse_tags(raw.substring_char(1, end));
            let rest = raw.substring_char(end + 1, n);
            assert(rest@ =~= raw@.skip(end + 1));
            parse_after_tags(tags, rest)
        } else {
            parse_after_tags(Tags::new(), raw)
        }
    }

    /// The value of the tag `key`, if the message has that tag with a value.
    pub fn tag_value(&self, key: &str) -> (r: Option<&'a str>)
        ensures
            opt_view(r) == match tags_get(self@.tags, key@) {
                Some(Some(value)) => Some(value),
                _ => None,
            },
    {
        match self.tags.get(key) {
            Some(value) => value,
            None => None,
        }
    }

    /// The first argument without its leading `#` characters.
    pub fn first_arg_as_channel_name(&self) -> (r: Option<&'a str>)
        ensures
            opt_view(r) == if self@.args.len() > 0 {
                Some(trim_start(self@.args[0], '#'))
            } else {
                None
            },
    {
        if self.command.args.len() > 0 {
            Some(trim_start_str(self.command.args[0], '#'))
        } else {
            None
        }
    }

    /// The trailing text cut before its first space: what stands before, and
    /// the rest from that space on. Without a trailing text the first part is
    /// empty.
    pub fn arg_split(&self) -> (r: (&'a str, Option<&'a str>))
        ensures
            (r.0@, opt_view(r.1)) == arg_split_of(self@.trailing),
    {
        match self.trailing {
            Some(s) => {
                let chars = chars_of(s);
                let n = chars.len();
                let i = find_char(&chars, ' ');
                if i < n {
                    let tail = s.substring_char(i, n);
                    assert(tail@ =~= s@.skip(i as int));
                    (s.substring_char(0, i), Some(tail))
                } else {
                    (s, None)
                }
            },
            None => {
                proof {
                    reveal_strlit("");
                }
                ("", None)
            },
        }
    }

    /// The line that this message is written as.
    pub fn to_string(&self) -> (line: String)
        ensures
            line@ == wire(self@),
    {
        let mut out = String::new();
        let n = self.tags.entries.len();
        if n > 0 {
            out.push('@');
            let mut i: usize = 0;
            assert(tag_texts(self@.tags).take(0) =~= Seq::<Seq<char>>::empty());
            while i < n
                invariant
                    n == self.tags.entries.len(),
                    n == self@.tags.len(),
                    i <= n,
                    out@ == seq!['@'] + join(tag_texts(self@.tags).take(i as int), ';'),
                decreases n - i,
            {
                let ghost texts = tag_texts(self@.tags);
                let ghost before = out@;
                if i > 0 {
                    out.push(';');
                }
                let key = self.tags.entries[i].0;
                out.append(key);
                match self.tags.entries[i].1 {
                    Some(value) => {
                        out.push('=');
                        out.append(value);
                    },
                    None => {},
                }
                proof {
                    assert(texts.take(i + 1) =~= texts.take(i as int).push(texts[i as int]));
                    lemma_join_push(texts.take(i as int), texts[i as int], ';');
                    assert(out@ =~= seq!['@'] + join(texts.take(i + 1), ';'));
                }
                i = i + 1;
            }
            assert(tag_texts(self@.tags).take(n as int) =~= tag_texts(self@.tags));
            out.push(' ');
        }
        assert(out@ =~= tags_part(self@.tags));
        match self.prefix {
            Prefix::Full { nick, user, host } => {
                out.push(':');
                out.append(nick);
                out.push('!');
                out.append(user);
                out.push('@');
                out.append(host);
                out.push(' ');
            },
            Prefix::UserHost { user, host } => {
                out.push(':');
                out.append(user);
                out.push('@');
                out.append(host);
                out.push(' ');
            },
            Prefix::Host(host) => {
                out.push(':');
                out.append(host);
                out.push(' ');
            },
            Prefix::Absent => {},
        }
        assert(out@ =~= tags_part(self@.tags) + prefix_part(self@.prefix));
        let ghost head = out@;
        out.append(self.command.name);
        let m = self.command.args.len();
        let mut k: usize = 0;
        let ghost args = strs_view(self.command.args@);
        assert((seq![self@.name] + args.take(0)) =~= seq![self@.name]);
        while k < m
            invariant
                m == self.command.args.len(),
                args == strs_view(self.command.args@),
                k <= m,
                out@ == head + join(seq![self@.name] + args.take(k as int), ' '),
            decreases m - k,
        {
            out.push(' ');
            out.append(self.command.args[k]);
            proof {
                let sofar = seq![self@.name] + args.take(k as int);
                assert(seq![self@.name] + args.take(k + 1) =~= sofar.push(args[k as int]));
                lemma_join_push(sofar, args[k as int], ' ');
                assert(out@ =~= head + join(seq![self@.name] + args.take(k + 1), ' '));
            }
            k = k + 1;
        }
        assert(args.take(m as int) =~= args);
        match self.trailing {
            Some(text) => {
                out.push(' ');
                out.push(':');
                out.append(text);
            },
            None => {},
        }
        assert(out@ =~= wire(self@));
        out
    }
}

/// Builds a message piece by piece.
pub struct MessageBuilder<'a> {
    message: Message<'a>,
}

impl<'a> View for MessageBuilder<'a> {
    type V = MessageView;

    closed spec fn view(&self) -> MessageView {
        self.message@
    }
}

impl<'a> MessageBuilder<'a> {
    /// Starts a message with the given command name and nothing else.
    pub fn new(command_name: &'a str) -> (builder: MessageBuilder<'a>)
        ensures
            builder@ == (MessageView { name: command_name@, ..empty_message() }),
    {
        let builder = MessageBuilder {
            message: Message {
                tags: Tags::new(),
                prefix: Prefix::Absent,
                command: Command { name: command_name, args: Vec::new() },
                trailing: None,
            },
        };
        assert(builder@.args =~= Seq::<Seq<char>>::empty());
        builder
    }

    /// Adds an argument behind those already there.
    pub fn with_arg(&mut self, arg: &'a str) -> (builder: &mut MessageBuilder<'a>)
        ensures
            builder@ == (MessageView { args: old(self)@.args.push(arg@), ..old(self)@ }),
            *final(self) == *final(builder),
    {
        let ghost before = self.message.command.args@;
        self.message.command.args.push(arg);
        assert(strs_view(self.message.command.args@) =~= strs_view(before).push(arg@));
        self
    }

    /// Sets a tag.
    pub fn with_tag(&mut self, key: &'a str, value: Option<&'a str>) -> (builder: &mut MessageBuilder<
        'a,
    >)
        ensures
            builder@ == (MessageView {
                tags: tags_insert(old(self)@.tags, key@, opt_view(value)),
                ..old(self)@
            }),
            *final(self) == *final(builder),
    {
        self.message.tags.insert(key, value);
        self
    }

    /// Sets the prefix.
    pub fn with_prefix(&mut self, prefix: Prefix<'a>) -> (builder: &mut MessageBuilder<'a>)
        ensures
            builder@ == (MessageView { prefix: prefix@, ..old(self)@ }),
            *final(self) == *final(builder),
    {
        self.message.prefix = prefix;
        self
    }

    /// Sets the trailing text.
    pub fn with_trailing(&mut self, trailing: &'a str) -> (builder: &mut MessageBuilder<'a>)
        ensures
            builder@ == (MessageView { trailing: Some(trailing@), ..old(self)@ }),
            *final(self) == *final(builder),
    {
        self.message.trailing = Some(trailing);
        self
    }

    /// The line that the message built so far is written as.
    pub fn string(&mut self) -> (line: String)
        ensures
            line@ == wire(old(self)@),
            *final(self) == *old(self),
    {
        self.message.to_string()
    }
}

/// A line built from a command name, one argument and a trailing text.
pub proof fn lemma_built_line(name: Seq<char>, arg: Seq<char>, trailing: Seq<char>)
    ensures
        wire(
            MessageView {
                args: seq![arg],
                trailing: Some(trailing),
                ..MessageView { name, ..empty_message() }
            },
        ) == name + seq![' '] + arg + seq![' ', ':'] + trailing,
{
    let parts = seq![name] + seq![arg];
    assert(parts.drop_first() =~= seq![arg]);
    assert(join(parts.drop_first(), ' ') == arg);
    assert(join(parts, ' ') == parts[0] + seq![' '] + join(parts.drop_first(), ' '));
    let m = MessageView {
        args: seq![arg],
        trailing: Some(trailing),
        ..MessageView { name, ..empty_message() }
    };
    assert(wire(m) =~= name + seq![' '] + arg + seq![' ', ':'] + trailing);
}

/// The trailing text cut before its first space.
pub open spec fn arg_split_of(trailing: Option<Seq<char>>) -> (Seq<char>, Option<Seq<char>>) {
    match trailing {
        Some(s) => {
            let i = first_index(s, ' ');
            if 0 <= i < s.len() {
                (s.take(i), Some(s.skip(i)))
            } else {
                (s, None)
            }
        },
        None => (Seq::empty(), None),
    }
}

} // verus!
