use crate::irc::{
    after_tags, command_of, command_text, parsed, prefix_of, prefix_part, prefix_text, tag_keys,
    tag_of, tag_text, tag_texts, tags_from, tags_insert, tags_of, tags_part, trailing_part, wire,
    MessageView, ParseError, PrefixView, TagView,
};
use crate::text::{
    all_lack, all_nonempty, drop_empty, find_pair, first_index, join, lacks, last_index,
    lemma_drop_empty, lemma_find_pair, lemma_find_pair_is, lemma_first_index,
    lemma_first_index_is, lemma_join_lacks, lemma_join_no_pair, lemma_last_index,
    lemma_last_index_is, lemma_split, lemma_split_join, lemma_split_lacks, lemma_split_starts,
    no_pair, none_starts_with, split,
};
use vstd::prelude::*;

verus! {

// ---------------------------------------------------------------------------
// What a message needs to survive the wire
// ---------------------------------------------------------------------------
/// A tag whose text reads back as the same tag: no separator inside its
/// key or value, and a key of its own if it has no value.
pub open spec fn tag_ok(tag: TagView) -> bool {
    &&& lacks(tag.0, ' ')
    &&& lacks(tag.0, ';')
    &&& lacks(tag.0, '=')
    &&& match tag.1 {
        Some(value) => lacks(value, ' ') && lacks(value, ';'),
        None => tag.0.len() > 0,
    }
}

/// No key occurs twice.
pub open spec fn distinct_keys(tags: Seq<TagView>) -> bool {
    forall|i: int, j: int| 0 <= i < j < tags.len() ==> tags[i].0 != tags[j].0
}

/// Tags that read back as the same tags.
pub open spec fn tags_ok(tags: Seq<TagView>) -> bool {
    &&& distinct_keys(tags)
    &&& forall|i: int| 0 <= i < tags.len() ==> tag_ok(#[trigger] tags[i])
}

/// A prefix whose text reads back as the same prefix.
pub open spec fn prefix_ok(prefix: PrefixView) -> bool {
    match prefix {
        PrefixView::Full { nick, user, host } => {
            &&& lacks(nick, ' ')
            &&& lacks(user, ' ')
            &&& lacks(user, '!')
            &&& lacks(host, ' ')
            &&& lacks(host, '@')
        },
        PrefixView::UserHost { user, host } => {
            &&& lacks(user, ' ')
            &&& lacks(user, '!')
            &&& lacks(host, ' ')
            &&& lacks(host, '@')
        },
        PrefixView::Host(host) => lacks(host, ' ') && lacks(host, '@'),
        PrefixView::Absent => true,
    }
}

/// A command whose text reads back as the same name and arguments.
pub open spec fn command_ok(name: Seq<char>, args: Seq<Seq<char>>) -> bool {
    &&& name.len() > 0
    &&& lacks(name, ' ')
    &&& all_lack(args, ' ')
    &&& all_nonempty(args)
    &&& none_starts_with(args, ':')
}

/// The shape of every message that a line parses to.
pub open spec fn wire_form(m: MessageView) -> bool {
    &&& tags_ok(m.tags)
    &&& prefix_ok(m.prefix)
    &&& command_ok(m.name, m.args)
    &&& (m.prefix is Absent ==> m.name[0] != ':')
}

/// A message without tags and prefix whose command name begins with `@`:
/// written out, its name stands where a tag section would.
pub open spec fn reads_as_tags(m: MessageView) -> bool {
    m.tags.len() == 0 && m.prefix is Absent && m.name.len() > 0 && m.name[0] == '@'
}

// ---------------------------------------------------------------------------
// From text to model: what the parser gives is in wire form
// ---------------------------------------------------------------------------
proof fn lemma_sub_lacks(s: Seq<char>, from: int, to: int, a: char)
    requires
        lacks(s, a),
        0 <= from <= to <= s.len(),
    ensures
        lacks(s.subrange(from, to), a),
{
    let t = s.subrange(from, to);
    assert forall|j: int| 0 <= j < t.len() implies t[j] != a by {
        assert(t[j] == s[from + j]);
    }
}

proof fn lemma_tag_of_ok(pair: Seq<char>)
    requires
        pair.len() > 0,
        lacks(pair, ' '),
        lacks(pair, ';'),
    ensures
        tag_ok(tag_of(pair)),
{
    let i = first_index(pair, '=');
    lemma_first_index(pair, '=');
    if 0 <= i < pair.len() {
        lemma_sub_lacks(pair, 0, i, ' ');
        lemma_sub_lacks(pair, 0, i, ';');
        lemma_sub_lacks(pair, i + 1, pair.len() as int, ' ');
        lemma_sub_lacks(pair, i + 1, pair.len() as int, ';');
        let key = pair.take(i);
        assert forall|j: int| 0 <= j < key.len() implies key[j] != '=' by {
            assert(key[j] == pair[j]);
        }
    }
}

proof fn lemma_insert_ok(tags: Seq<TagView>, tag: TagView)
    requires
        tags_ok(tags),
        tag_ok(tag),
    ensures
        tags_ok(tags_insert(tags, tag.0, tag.1)),
{
    let keys = tag_keys(tags);
    let i = first_index(keys, tag.0);
    lemma_first_index(keys, tag.0);
    let out = tags_insert(tags, tag.0, tag.1);
    if 0 <= i < tags.len() {
        assert(keys[i] == tags[i].0);
        assert forall|a: int, b: int| 0 <= a < b < out.len() implies out[a].0 != out[b].0 by {
            assert(out[a].0 == tags[a].0);
            assert(out[b].0 == tags[b].0);
        }
        assert forall|k: int| 0 <= k < out.len() implies tag_ok(#[trigger] out[k]) by {
            if k != i {
                assert(out[k] == tags[k]);
            }
        }
    } else {
        assert forall|a: int, b: int| 0 <= a < b < out.len() implies out[a].0 != out[b].0 by {
            if b < tags.len() {
                assert(out[a] == tags[a] && out[b] == tags[b]);
            } else {
                assert(out[a] == tags[a]);
                assert(keys[a] == tags[a].0);
            }
        }
        assert forall|k: int| 0 <= k < out.len() implies tag_ok(#[trigger] out[k]) by {
            if k < tags.len() {
                assert(out[k] == tags[k]);
            }
        }
    }
}

proof fn lemma_tags_from_ok(pairs: Seq<Seq<char>>)
    requires
        all_lack(pairs, ' '),
        all_lack(pairs, ';'),
    ensures
        tags_ok(tags_from(pairs)),
    decreases pairs.len(),
{
    if pairs.len() > 0 {
        let init = pairs.drop_last();
        assert forall|k: int| 0 <= k < init.len() implies lacks(#[trigger] init[k], ' ') by {
            assert(init[k] == pairs[k]);
        }
        assert forall|k: int| 0 <= k < init.len() implies lacks(#[trigger] init[k], ';') by {
            assert(init[k] == pairs[k]);
        }
        lemma_tags_from_ok(init);
        let last = pairs[pairs.len() - 1];
        assert(lacks(last, ' ') && lacks(last, ';'));
        if last.len() > 0 {
            lemma_tag_of_ok(last);
            lemma_insert_ok(tags_from(init), tag_of(last));
        }
    }
}

proof fn lemma_tags_of_ok(section: Seq<char>)
    requires
        lacks(section, ' '),
    ensures
        tags_ok(tags_of(section)),
{
    lemma_split(section, ';');
    lemma_split_lacks(section, ';', ' ');
    lemma_tags_from_ok(split(section, ';'));
}

proof fn lemma_prefix_of_ok(text: Seq<char>)
    requires
        lacks(text, ' '),
    ensures
        prefix_ok(prefix_of(text)),
{
    let at = last_index(text, '@');
    lemma_last_index(text, '@');
    if at >= 0 {
        let left = text.take(at);
        let host = text.skip(at + 1);
        lemma_sub_lacks(text, 0, at, ' ');
        lemma_sub_lacks(text, at + 1, text.len() as int, ' ');
        assert forall|j: int| 0 <= j < host.len() implies host[j] != '@' by {
            assert(host[j] == text[at + 1 + j]);
        }
        let bang = last_index(left, '!');
        lemma_last_index(left, '!');
        if bang >= 0 {
            let user = left.skip(bang + 1);
            lemma_sub_lacks(left, 0, bang, ' ');
            lemma_sub_lacks(left, bang + 1, left.len() as int, ' ');
            assert forall|j: int| 0 <= j < user.len() implies user[j] != '!' by {
                assert(user[j] == left[bang + 1 + j]);
            }
        }
    }
}

proof fn lemma_command_of_ok(tags: Seq<TagView>, prefix: PrefixView, rest: Seq<char>)
    requires
        command_of(tags, prefix, rest) is Ok,
    ensures
        command_ok(command_of(tags, prefix, rest)->Ok_0.name, command_of(tags, prefix, rest)->Ok_0.args),
        command_of(tags, prefix, rest)->Ok_0.tags == tags,
        command_of(tags, prefix, rest)->Ok_0.prefix == prefix,
        rest.len() > 0,
        command_of(tags, prefix, rest)->Ok_0.name[0] == rest[0],
{
    let cut = find_pair(rest, ' ', ':');
    lemma_find_pair(rest, ' ', ':');
    let found = 0 <= cut < rest.len();
    let section = if found {
        rest.take(cut)
    } else {
        rest
    };
    assert forall|j: int| 0 <= j && j + 1 < section.len() implies !(section[j] == ' '
        && #[trigger] section[j + 1] == ':') by {
        assert(section[j] == rest[j]);
        assert(section[j + 1] == rest[j + 1]);
    }
    assert(no_pair(section, ' ', ':'));
    let tokens = split(section, ' ');
    lemma_split(section, ' ');
    lemma_split_starts(section, ' ', ':');
    lemma_first_index(section, ' ');
    let name = tokens[0];
    assert(lacks(name, ' '));
    assert(name[0] == section[0]);
    let others = tokens.drop_first();
    assert forall|k: int| 0 <= k < others.len() implies lacks(#[trigger] others[k], ' ') by {
        assert(others[k] == tokens[k + 1]);
    }
    assert(all_lack(others, ' '));
    assert(none_starts_with(others, ':'));
    lemma_drop_empty(others);
}

proof fn lemma_after_tags_ok(tags: Seq<TagView>, rest: Seq<char>)
    requires
        tags_ok(tags),
        after_tags(tags, rest) is Ok,
    ensures
        wire_form(after_tags(tags, rest)->Ok_0),
{
    if rest[0] == ':' {
        let end = first_index(rest, ' ');
        lemma_first_index(rest, ' ');
        let text = rest.subrange(1, end);
        assert forall|j: int| 0 <= j < text.len() implies text[j] != ' ' by {
            assert(text[j] == rest[1 + j]);
        }
        lemma_prefix_of_ok(text);
        lemma_command_of_ok(tags, prefix_of(text), rest.skip(end + 1));
        let at = last_index(text, '@');
        lemma_last_index(text, '@');
    } else {
        lemma_command_of_ok(tags, PrefixView::Absent, rest);
    }
}

/// Every message that a line parses to is in wire form.
pub proof fn lemma_parsed_wire_form(line: Seq<char>)
    requires
        parsed(line) is Ok,
    ensures
        wire_form(parsed(line)->Ok_0),
{
    if line[0] == '@' {
        let end = first_index(line, ' ');
        lemma_first_index(line, ' ');
        let section = line.subrange(1, end);
        assert forall|j: int| 0 <= j < section.len() implies section[j] != ' ' by {
            assert(section[j] == line[1 + j]);
        }
        lemma_tags_of_ok(section);
        lemma_after_tags_ok(tags_of(section), line.skip(end + 1));
    } else {
        lemma_after_tags_ok(Seq::empty(), line);
    }
}

// ---------------------------------------------------------------------------
// From model to text and back
// ---------------------------------------------------------------------------
proof fn lemma_tag_text(tag: TagView)
    requires
        tag_ok(tag),
    ensures
        tag_of(tag_text(tag)) == tag,
        tag_text(tag).len() > 0,
        lacks(tag_text(tag), ';'),
        lacks(tag_text(tag), ' '),
{
    let text = tag_text(tag);
    match tag.1 {
        Some(value) => {
            assert(text == tag.0 + seq!['='] + value);
            assert forall|j: int| 0 <= j < tag.0.len() implies text[j] != '=' by {
                assert(text[j] == tag.0[j]);
            }
            assert(text[tag.0.len() as int] == '=');
            lemma_first_index_is(text, '=', tag.0.len() as int);
            assert(text.take(tag.0.len() as int) =~= tag.0);
            assert(text.skip(tag.0.len() as int + 1) =~= value);
            assert forall|j: int| 0 <= j < text.len() implies text[j] != ';' && text[j] != ' ' by {
                if j < tag.0.len() {
                    assert(text[j] == tag.0[j]);
                } else if j > tag.0.len() {
                    assert(text[j] == value[j - tag.0.len() - 1]);
                }
            }
        },
        None => {
            lemma_first_index_is(text, '=', text.len() as int);
        },
    }
}

proof fn lemma_tags_from_texts(tags: Seq<TagView>)
    requires
        tags_ok(tags),
    ensures
        tags_from(tag_texts(tags)) == tags,
        all_lack(tag_texts(tags), ';'),
        all_lack(tag_texts(tags), ' '),
    decreases tags.len(),
{
    let texts = tag_texts(tags);
    if tags.len() == 0 {
        assert(tags =~= Seq::<TagView>::empty());
    } else {
        let init = tags.drop_last();
        let last = tags[tags.len() - 1];
        assert forall|i: int, j: int| 0 <= i < j < init.len() implies init[i].0 != init[j].0 by {
            assert(init[i] == tags[i] && init[j] == tags[j]);
        }
        assert forall|i: int| 0 <= i < init.len() implies tag_ok(#[trigger] init[i]) by {
            assert(init[i] == tags[i]);
        }
        lemma_tags_from_texts(init);
        assert(tag_ok(last));
        lemma_tag_text(last);
        assert(texts.drop_last() =~= tag_texts(init));
        assert(texts.last() == tag_text(last));
        let keys = tag_keys(init);
        assert forall|j: int| 0 <= j < keys.len() implies keys[j] != last.0 by {
            assert(keys[j] == tags[j].0);
        }
        lemma_first_index_is(keys, last.0, keys.len() as int);
        assert(tags_insert(init, last.0, last.1) =~= tags);
        assert forall|k: int| 0 <= k < texts.len() implies lacks(#[trigger] texts[k], ';') && lacks(
            texts[k],
            ' ',
        ) by {
            if k < init.len() {
                assert(texts[k] == tag_texts(init)[k]);
            }
        }
    }
}

proof fn lemma_prefix_text(prefix: PrefixView)
    requires
        prefix_ok(prefix),
        !(prefix is Absent),
    ensures
        prefix_text(prefix).len() > 0,
        prefix_text(prefix)[0] == ':',
        lacks(prefix_text(prefix), ' '),
        prefix_of(prefix_text(prefix).skip(1)) == prefix,
{
    let text = prefix_text(prefix);
    let body = text.skip(1);
    match prefix {
        PrefixView::Full { nick, user, host } => {
            assert(body =~= nick + seq!['!'] + user + seq!['@'] + host);
            let at: int = (nick.len() + 1 + user.len()) as int;
            assert forall|j: int| at < j < body.len() implies body[j] != '@' by {
                assert(body[j] == host[j - at - 1]);
            }
            assert(body[at] == '@');
            lemma_last_index_is(body, '@', at);
            let left = body.take(at);
            assert(left =~= nick + seq!['!'] + user);
            assert(body.skip(at + 1) =~= host);
            assert forall|j: int| nick.len() < j < left.len() implies left[j] != '!' by {
                assert(left[j] == user[j - nick.len() - 1]);
            }
            assert(left[nick.len() as int] == '!');
            lemma_last_index_is(left, '!', nick.len() as int);
            assert(left.take(nick.len() as int) =~= nick);
            assert(left.skip(nick.len() as int + 1) =~= user);
            assert forall|j: int| 0 <= j < text.len() implies text[j] != ' ' by {
                if j == 0 {
                } else if j - 1 < nick.len() {
                    assert(text[j] == nick[j - 1]);
                } else if j - 1 == nick.len() {
                } else if j - 1 < at {
                    assert(text[j] == user[j - 1 - nick.len() - 1]);
                } else if j - 1 == at {
                } else {
                    assert(text[j] == host[j - 1 - at - 1]);
                }
            }
        },
        PrefixView::UserHost { user, host } => {
            assert(body =~= user + seq!['@'] + host);
            let at: int = user.len() as int;
            assert forall|j: int| at < j < body.len() implies body[j] != '@' by {
                assert(body[j] == host[j - at - 1]);
            }
            assert(body[at] == '@');
            lemma_last_index_is(body, '@', at);
            let left = body.take(at);
            assert(left =~= user);
            assert(body.skip(at + 1) =~= host);
            lemma_last_index_is(left, '!', -1);
            assert forall|j: int| 0 <= j < text.len() implies text[j] != ' ' by {
                if j == 0 {
                } else if j - 1 < at {
                    assert(text[j] == user[j - 1]);
                } else if j - 1 == at {
                } else {
                    assert(text[j] == host[j - 1 - at - 1]);
                }
            }
        },
        PrefixView::Host(host) => {
            assert(body =~= host);
            lemma_last_index_is(body, '@', -1);
            assert forall|j: int| 0 <= j < text.len() implies text[j] != ' ' by {
                if j > 0 {
                    assert(text[j] == host[j - 1]);
                }
            }
        },
        PrefixView::Absent => {},
    }
}

proof fn lemma_command_text(
    tags: Seq<TagView>,
    prefix: PrefixView,
    name: Seq<char>,
    args: Seq<Seq<char>>,
    trailing: Option<Seq<char>>,
)
    requires
        command_ok(name, args),
    ensures
        command_of(tags, prefix, command_text(name, args) + trailing_part(trailing)) == Ok::<
            MessageView,
            ParseError,
        >(MessageView { tags, prefix, name, args, trailing }),
        command_text(name, args).len() > 0,
        command_text(name, args)[0] == name[0],
{
    let parts = seq![name] + args;
    let text = join(parts, ' ');
    let rest = text + trailing_part(trailing);
    assert(parts.drop_first() =~= args);
    assert forall|k: int| 0 <= k < parts.len() implies lacks(#[trigger] parts[k], ' ') by {
        if k > 0 {
            assert(parts[k] == args[k - 1]);
        }
    }
    lemma_join_no_pair(parts, ' ', ':');
    lemma_split_join(parts, ' ');
    lemma_drop_empty(args);
    assert(parts[0] == name);
    assert(text.len() > 0 && text[0] == name[0]) by {
        if parts.len() > 1 {
            assert(text == parts[0] + seq![' '] + join(parts.drop_first(), ' '));
        }
    }
    match trailing {
        Some(t) => {
            assert(rest =~= text + seq![' ', ':'] + t);
            assert forall|j: int| 0 <= j < text.len() && j + 1 < rest.len() implies !(rest[j] == ' '
                && #[trigger] rest[j + 1] == ':') by {
                if j + 1 < text.len() {
                    assert(rest[j] == text[j]);
                    assert(rest[j + 1] == text[j + 1]);
                } else {
                    assert(rest[j + 1] == ' ');
                }
            }
            assert(rest[text.len() as int] == ' ');
            assert(rest[text.len() as int + 1] == ':');
            lemma_find_pair_is(rest, ' ', ':', text.len() as int);
            assert(rest.take(text.len() as int) =~= text);
            assert(rest.skip(text.len() as int + 2) =~= t);
        },
        None => {
            assert(rest =~= text);
            lemma_find_pair_is(rest, ' ', ':', rest.len() as int);
        },
    }
}

proof fn lemma_after_tags_text(m: MessageView)
    requires
        wire_form(m),
    ensures
        after_tags(
            m.tags,
            prefix_part(m.prefix) + command_text(m.name, m.args) + trailing_part(m.trailing),
        ) == Ok::<MessageView, ParseError>(m),
        (prefix_part(m.prefix) + command_text(m.name, m.args) + trailing_part(m.trailing)).len()
            > 0,
        (prefix_part(m.prefix) + command_text(m.name, m.args) + trailing_part(m.trailing))[0]
            == if m.prefix is Absent {
            m.name[0]
        } else {
            ':'
        },
{
    let tail = command_text(m.name, m.args) + trailing_part(m.trailing);
    let rest = prefix_part(m.prefix) + command_text(m.name, m.args) + trailing_part(m.trailing);
    lemma_command_text(m.tags, m.prefix, m.name, m.args, m.trailing);
    if m.prefix is Absent {
        assert(rest =~= tail);
        assert(rest[0] == m.name[0]);
    } else {
        let text = prefix_text(m.prefix);
        lemma_prefix_text(m.prefix);
        assert(rest =~= text + seq![' '] + tail);
        assert forall|j: int| 0 <= j < text.len() implies rest[j] != ' ' by {
            assert(rest[j] == text[j]);
        }
        assert(rest[text.len() as int] == ' ');
        lemma_first_index_is(rest, ' ', text.len() as int);
        assert(rest.subrange(1, text.len() as int) =~= text.skip(1));
        assert(rest.skip(text.len() as int + 1) =~= tail);
        assert(rest[0] == text[0]);
    }
}

/// A message in wire form, written out, parses to itself, unless its
/// command name would be read as a tag section.
pub proof fn lemma_wire_parses_back(m: MessageView)
    requires
        wire_form(m),
        !reads_as_tags(m),
    ensures
        parsed(wire(m)) == Ok::<MessageView, ParseError>(m),
{
    let rest = prefix_part(m.prefix) + command_text(m.name, m.args) + trailing_part(m.trailing);
    let line = wire(m);
    lemma_after_tags_text(m);
    if m.tags.len() == 0 {
        assert(m.tags =~= Seq::<TagView>::empty());
        assert(line =~= rest);
    } else {
        let texts = tag_texts(m.tags);
        let section = join(texts, ';');
        lemma_tags_from_texts(m.tags);
        lemma_join_lacks(texts, ';', ' ');
        lemma_split_join(texts, ';');
        assert(line =~= seq!['@'] + section + seq![' '] + rest);
        assert forall|j: int| 0 <= j < 1 + section.len() implies line[j] != ' ' by {
            if j > 0 {
                assert(line[j] == section[j - 1]);
            }
        }
        let end: int = (1 + section.len()) as int;
        assert(line[end] == ' ');
        lemma_first_index_is(line, ' ', end);
        assert(line.subrange(1, end) =~= section);
        assert(line.skip(end + 1) =~= rest);
    }
}

/// Round trip: the message that a line parses to, written out and parsed
/// again, is the same message, with every tag and argument as often as
/// before. This leaves out the messages without tags and prefix whose
/// command name begins with `@`.
pub proof fn lemma_round_trip(line: Seq<char>)
    requires
        parsed(line) is Ok,
        !reads_as_tags(parsed(line)->Ok_0),
    ensures
        parsed(wire(parsed(line)->Ok_0)) == parsed(line),
{
    lemma_parsed_wire_form(line);
    lemma_wire_parses_back(parsed(line)->Ok_0);
}

} // verus!
