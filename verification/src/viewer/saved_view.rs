//! Saving the view: what is said about it, and the address of a page that opens
//! with it.

use vstd::prelude::*;
use vstd::string::*;

use crate::text::{ends_with, has_prefix, starts_with};

verus! {

/// What is said about a saved view.
pub open spec fn saved_line(pose: Seq<char>, rotation: Option<Seq<char>>) -> Seq<char> {
    "view saved: --camera-pose "@ + pose + match rotation {
        Some(rotation) => " --cloud-rotation "@ + rotation,
        None => Seq::empty(),
    }
}

/// Says that a view was saved.
pub fn saved_view_line(pose: &str, rotation: Option<&str>) -> (r: String)
    ensures
        r@ == saved_line(
            pose@,
            match rotation {
                Some(rotation) => Some(rotation@),
                None => None,
            },
        ),
{
    let mut line = "view saved: --camera-pose ".to_owned();
    line.append(pose);
    if let Some(rotation) = rotation {
        line.append(" --cloud-rotation ");
        line.append(rotation);
        assert(line@ =~= saved_line(pose@, Some(rotation@)));
    } else {
        assert(line@ =~= saved_line(pose@, None));
    }
    line
}

/// The parameters of a query, between its ampersands.
pub open spec fn split_params(query: Seq<char>) -> Seq<Seq<char>>
    decreases query.len(),
{
    if query.len() == 0 {
        seq![Seq::empty()]
    } else {
        let before = split_params(query.drop_last());
        if query.last() == '&' {
            before.push(Seq::empty())
        } else {
            before.drop_last().push(before.last().push(query.last()))
        }
    }
}

/// A query without the question marks that it starts with.
pub open spec fn without_marks(search: Seq<char>) -> Seq<char>
    decreases search.len(),
{
    if search.len() > 0 && search[0] == '?' {
        without_marks(search.drop_first())
    } else {
        search
    }
}

/// Whether a parameter stays: empty ones go, and those that are written anew.
pub open spec fn stays(param: Seq<char>, rotation_given: bool) -> bool {
    &&& param.len() > 0
    &&& !starts_with(param, "camera_pose="@)
    &&& !(rotation_given && starts_with(param, "cloud_rotation="@))
}

/// The parameters that stay, in order.
pub open spec fn staying(params: Seq<Seq<char>>, rotation_given: bool) -> Seq<Seq<char>>
    decreases params.len(),
{
    if params.len() == 0 {
        Seq::empty()
    } else {
        let before = staying(params.drop_last(), rotation_given);
        if stays(params.last(), rotation_given) {
            before.push(params.last())
        } else {
            before
        }
    }
}

/// The parameters with those of the view written anew at the end.
pub open spec fn params_with_view(
    params: Seq<Seq<char>>,
    pose: Seq<char>,
    rotation: Option<Seq<char>>,
) -> Seq<Seq<char>> {
    let with_pose = staying(params, rotation is Some).push("camera_pose="@ + pose);
    match rotation {
        Some(rotation) => with_pose.push("cloud_rotation="@ + rotation),
        None => with_pose,
    }
}

/// Parameters as a query.
pub open spec fn joined_params(params: Seq<Seq<char>>) -> Seq<char>
    decreases params.len(),
{
    if params.len() == 0 {
        Seq::empty()
    } else if params.len() == 1 {
        params[0]
    } else {
        joined_params(params.drop_last()) + "&"@ + params.last()
    }
}

/// The address of a page that opens with the view.
pub open spec fn view_url(
    pathname: Seq<char>,
    search: Seq<char>,
    pose: Seq<char>,
    rotation: Option<Seq<char>>,
) -> Seq<char> {
    pathname + "?"@ + joined_params(
        params_with_view(split_params(without_marks(search)), pose, rotation),
    )
}

/// The views of parameters.
pub open spec fn param_views(params: Seq<String>) -> Seq<Seq<char>> {
    params.map_values(|param: String| param@)
}

/// Adds a parameter if it stays.
fn keep_param(params: &mut Vec<String>, param: &str, rotation_given: bool)
    ensures
        param_views(final(params)@) == (if stays(param@, rotation_given) {
            param_views(old(params)@).push(param@)
        } else {
            param_views(old(params)@)
        }),
{
    if param.unicode_len() > 0 && !has_prefix(param, "camera_pose=") && !(rotation_given
        && has_prefix(param, "cloud_rotation=")) {
        params.push(param.to_owned());
        assert(param_views(params@) =~= param_views(old(params)@).push(param@));
    }
}

/// Adding a parameter to a list adds it to those that stay, or not.
proof fn lemma_staying_push(params: Seq<Seq<char>>, param: Seq<char>, rotation_given: bool)
    ensures
        staying(params.push(param), rotation_given) == (if stays(param, rotation_given) {
            staying(params, rotation_given).push(param)
        } else {
            staying(params, rotation_given)
        }),
{
    assert(params.push(param).drop_last() =~= params);
}

/// Finds where a query starts behind its question marks.
fn skip_marks(search: &str) -> (r: usize)
    ensures
        r <= search@.len(),
        without_marks(search@) == search@.subrange(r as int, search@.len() as int),
{
    let length = search.unicode_len();
    let mut start: usize = 0;
    assert(search@.subrange(0, length as int) =~= search@);
    while start < length && search.get_char(start) == '?'
        invariant
            start <= length,
            length == search@.len(),
            without_marks(search@) == without_marks(search@.subrange(start as int, length as int)),
        decreases length - start,
    {
        let ghost rest = search@.subrange(start as int, length as int);
        assert(rest.drop_first() =~= search@.subrange(start + 1, length as int));
        start = start + 1;
    }
    assert(start < length ==> search@.subrange(start as int, length as int)[0]
        == search@[start as int]);
    start
}

/// Lists the parameters of a query that stay.
fn collect_params(search: &str, rotation_given: bool) -> (r: Vec<String>)
    ensures
        param_views(r@) == staying(split_params(without_marks(search@)), rotation_given),
{
    let length = search.unicode_len();
    let start = skip_marks(search);
    let ghost query = without_marks(search@);
    let mut params: Vec<String> = Vec::new();
    let ghost mut done: Seq<Seq<char>> = Seq::empty();
    let mut from: usize = start;
    let mut position: usize = start;
    assert(param_views(params@) =~= Seq::empty());
    assert(query.subrange(0, 0) =~= Seq::empty());
    assert(done.push(Seq::empty()) =~= seq![Seq::<char>::empty()]);
    assert(search@.subrange(start as int, start as int) =~= Seq::empty());
    while position < length
        invariant
            length == search@.len(),
            start <= from <= position <= length,
            query == search@.subrange(start as int, length as int),
            split_params(query.subrange(0, position - start)) == done.push(
                search@.subrange(from as int, position as int),
            ),
            param_views(params@) == staying(done, rotation_given),
        decreases length - position,
    {
        let c = search.get_char(position);
        let ghost longer = query.subrange(0, position - start + 1);
        let ghost current = search@.subrange(from as int, position as int);
        assert(longer.drop_last() =~= query.subrange(0, position - start));
        assert(longer.last() == c);
        assert(done.push(current).drop_last() =~= done);
        if c == '&' {
            keep_param(&mut params, search.substring_char(from, position), rotation_given);
            proof {
                lemma_staying_push(done, current, rotation_given);
                done = done.push(current);
                assert(search@.subrange(position + 1, position + 1) =~= Seq::empty());
            }
            from = position + 1;
        } else {
            assert(search@.subrange(from as int, position + 1) =~= current.push(c));
        }
        position = position + 1;
    }
    keep_param(&mut params, search.substring_char(from, length), rotation_given);
    proof {
        lemma_staying_push(done, search@.subrange(from as int, length as int), rotation_given);
        assert(query.subrange(0, length - start) =~= query);
    }
    params
}

/// The address of a page that opens with the view: the parameters of the view are
/// replaced in the query, all others stay.
pub fn saved_view_url(pathname: &str, search: &str, pose: &str, rotation: Option<&str>) -> (r:
    String)
    ensures
        r@ == view_url(
            pathname@,
            search@,
            pose@,
            match rotation {
                Some(rotation) => Some(rotation@),
                None => None,
            },
        ),
{
    let ghost rotation_text = match rotation {
        Some(rotation) => Some(rotation@),
        None => None,
    };
    let mut params = collect_params(search, rotation.is_some());
    let ghost kept = param_views(params@);
    let mut param = "camera_pose=".to_owned();
    param.append(pose);
    params.push(param);
    assert(param_views(params@) =~= kept.push("camera_pose="@ + pose@));
    if let Some(rotation) = rotation {
        let ghost before = param_views(params@);
        let mut param = "cloud_rotation=".to_owned();
        param.append(rotation);
        params.push(param);
        assert(param_views(params@) =~= before.push("cloud_rotation="@ + rotation@));
    }
    let ghost all = params_with_view(split_params(without_marks(search@)), pose@, rotation_text);
    assert(param_views(params@) == all);
    let mut url = pathname.to_owned();
    url.append("?");
    let ghost head = url@;
    let mut k: usize = 0;
    while k < params.len()
        invariant
            k <= params@.len(),
            param_views(params@) == all,
            url@ == head + joined_params(all.subrange(0, k as int)),
        decreases params@.len() - k,
    {
        let ghost longer = all.subrange(0, k + 1);
        assert(longer.drop_last() =~= all.subrange(0, k as int));
        assert(longer.last() == params@[k as int]@);
        if k > 0 {
            url.append("&");
        }
        url.append(params[k].as_str());
        assert(url@ =~= head + joined_params(longer));
        k = k + 1;
    }
    assert(all.subrange(0, k as int) =~= all);
    url
}

/// What stays, stays again.
proof fn lemma_staying_twice(params: Seq<Seq<char>>, rotation_given: bool)
    ensures
        staying(staying(params, rotation_given), rotation_given) == staying(params, rotation_given),
    decreases params.len(),
{
    if params.len() > 0 {
        let before = params.drop_last();
        lemma_staying_twice(before, rotation_given);
        if stays(params.last(), rotation_given) {
            lemma_staying_push(staying(before, rotation_given), params.last(), rotation_given);
        }
    }
}

/// Saving the same view twice is saving it once: its parameters are replaced, not
/// added again.
pub proof fn saving_a_view_twice_is_saving_it_once(
    params: Seq<Seq<char>>,
    pose: Seq<char>,
    rotation: Option<Seq<char>>,
)
    ensures
        params_with_view(params_with_view(params, pose, rotation), pose, rotation)
            == params_with_view(params, pose, rotation),
{
    let given = rotation is Some;
    let kept = staying(params, given);
    let pose_param = "camera_pose="@ + pose;
    lemma_staying_twice(params, given);
    assert(pose_param.subrange(0, "camera_pose="@.len() as int) =~= "camera_pose="@);
    assert(!stays(pose_param, given));
    lemma_staying_push(kept, pose_param, given);
    if rotation is Some {
        let rotation_param = "cloud_rotation="@ + rotation->0;
        assert(rotation_param.subrange(0, "cloud_rotation="@.len() as int) =~= "cloud_rotation="@);
        assert(!stays(rotation_param, given));
        lemma_staying_push(kept.push(pose_param), rotation_param, given);
    }
}

/// The query of a saved address, with its question mark.
pub open spec fn saved_query(
    search: Seq<char>,
    pose: Seq<char>,
    rotation: Option<Seq<char>>,
) -> Seq<char> {
    "?"@ + joined_params(params_with_view(split_params(without_marks(search)), pose, rotation))
}

/// A parameter has no ampersand in it.
pub open spec fn is_param(text: Seq<char>) -> bool {
    !text.contains('&')
}

/// There is always a last parameter, and splitting leaves no ampersand in any.
proof fn lemma_split(query: Seq<char>)
    ensures
        split_params(query).len() > 0,
        forall|k: int|
            0 <= k < split_params(query).len() ==> is_param(#[trigger] split_params(query)[k]),
    decreases query.len(),
{
    let now = split_params(query);
    if query.len() > 0 {
        let before = split_params(query.drop_last());
        lemma_split(query.drop_last());
        assert forall|k: int| 0 <= k < now.len() implies is_param(#[trigger] now[k]) by {
            if k < before.len() - 1 {
                assert(now[k] == before[k]);
            } else if query.last() == '&' && k == before.len() - 1 {
                assert(now[k] == before[k]);
            } else if query.last() != '&' {
                let last = before.last();
                assert(is_param(last));
                assert(now[k] == last.push(query.last()));
                if now[k].contains('&') {
                    let j = choose|j: int| 0 <= j < now[k].len() && now[k][j] == '&';
                    assert(last[j] == '&');
                }
            }
        }
    }
}

/// Text without an ampersand goes to the last parameter.
proof fn lemma_split_more(query: Seq<char>, text: Seq<char>)
    requires
        is_param(text),
    ensures
        split_params(query + text) == split_params(query).drop_last().push(
            split_params(query).last() + text,
        ),
    decreases text.len(),
{
    let before = split_params(query);
    lemma_split(query);
    if text.len() == 0 {
        assert(query + text =~= query);
        assert(before.last() + text =~= before.last());
        assert(before.drop_last().push(before.last()) =~= before);
    } else {
        let less = text.drop_last();
        assert(text[text.len() - 1] != '&');
        assert forall|j: int| 0 <= j < less.len() implies less[j] != '&' by {
            assert(less[j] == text[j]);
        }
        lemma_split_more(query, less);
        assert((query + text).drop_last() =~= query + less);
        let shorter = split_params(query + less);
        assert(shorter.drop_last() =~= before.drop_last());
        assert((before.last() + less).push(text.last()) =~= before.last() + text);
    }
}

/// Splitting a query gives back the parameters that were joined.
proof fn lemma_split_joined(params: Seq<Seq<char>>)
    requires
        params.len() > 0,
        forall|k: int| 0 <= k < params.len() ==> is_param(#[trigger] params[k]),
    ensures
        split_params(joined_params(params)) == params,
    decreases params.len(),
{
    let empty = Seq::<char>::empty();
    assert(split_params(empty) =~= seq![empty]);
    if params.len() == 1 {
        assert(empty + params[0] =~= params[0]);
        lemma_split_more(empty, params[0]);
        assert(split_params(joined_params(params)) =~= params);
    } else {
        let before = params.drop_last();
        assert forall|k: int| 0 <= k < before.len() implies is_param(#[trigger] before[k]) by {
            assert(before[k] == params[k]);
        }
        lemma_split_joined(before);
        reveal_strlit("&");
        let head = joined_params(before) + "&"@;
        assert(head.drop_last() =~= joined_params(before));
        assert(split_params(head) =~= before.push(empty));
        assert(is_param(params[params.len() - 1]));
        lemma_split_more(head, params.last());
        assert(split_params(head).drop_last() =~= before);
        assert(empty + params.last() =~= params.last());
        assert(before.push(params.last()) =~= params);
    }
}

/// What stays is among the parameters.
proof fn lemma_staying_from(params: Seq<Seq<char>>, rotation_given: bool)
    requires
        forall|k: int| 0 <= k < params.len() ==> is_param(#[trigger] params[k]),
    ensures
        forall|k: int|
            0 <= k < staying(params, rotation_given).len() ==> is_param(
                #[trigger] staying(params, rotation_given)[k],
            ) && staying(params, rotation_given)[k].len() > 0,
    decreases params.len(),
{
    if params.len() > 0 {
        let before = params.drop_last();
        assert forall|k: int| 0 <= k < before.len() implies is_param(#[trigger] before[k]) by {
            assert(before[k] == params[k]);
        }
        lemma_staying_from(before, rotation_given);
        assert(is_param(params[params.len() - 1]));
        let now = staying(params, rotation_given);
        let old_ones = staying(before, rotation_given);
        assert forall|k: int| 0 <= k < now.len() implies is_param(#[trigger] now[k])
            && now[k].len() > 0 by {
            if k < old_ones.len() {
                assert(now[k] == old_ones[k]);
            }
        }
    }
}

/// A joined query starts as its first parameter does.
proof fn lemma_joined_start(params: Seq<Seq<char>>)
    requires
        params.len() > 0,
        params[0].len() > 0,
    ensures
        joined_params(params).len() > 0,
        joined_params(params)[0] == params[0][0],
    decreases params.len(),
{
    if params.len() > 1 {
        assert(params.drop_last()[0] == params[0]);
        lemma_joined_start(params.drop_last());
    }
}

/// A name and a value without an ampersand are a parameter.
proof fn lemma_pair_is_param(name: Seq<char>, value: Seq<char>)
    requires
        is_param(name),
        is_param(value),
    ensures
        is_param(name + value),
{
    let pair = name + value;
    if pair.contains('&') {
        let j = choose|j: int| 0 <= j < pair.len() && pair[j] == '&';
        if j < name.len() {
            assert(name[j] == '&');
        } else {
            assert(value[j - name.len()] == '&');
        }
    }
}

/// Saving the same view again gives the same address: the saved query, split
/// again, holds the parameters that were joined in it. Left out are texts of views
/// with an ampersand, which would end their parameter, and queries whose first
/// parameter that stays starts with a question mark, which would be taken for
/// that of the query.
pub proof fn saving_a_view_again_gives_the_same_address(
    pathname: Seq<char>,
    search: Seq<char>,
    pose: Seq<char>,
    rotation: Option<Seq<char>>,
)
    requires
        is_param(pose),
        rotation matches Some(text) ==> is_param(text),
        ({
            let kept = staying(split_params(without_marks(search)), rotation is Some);
            kept.len() > 0 ==> kept[0][0] != '?'
        }),
    ensures
        view_url(pathname, search, pose, rotation) == pathname + saved_query(
            search,
            pose,
            rotation,
        ),
        view_url(pathname, saved_query(search, pose, rotation), pose, rotation) == view_url(
            pathname,
            search,
            pose,
            rotation,
        ),
{
    let params = split_params(without_marks(search));
    let kept = staying(params, rotation is Some);
    let all = params_with_view(params, pose, rotation);
    let query = joined_params(all);
    lemma_split(without_marks(search));
    lemma_staying_from(params, rotation is Some);
    reveal_strlit("camera_pose=");
    reveal_strlit("cloud_rotation=");
    reveal_strlit("?");
    lemma_pair_is_param("camera_pose="@, pose);
    if rotation is Some {
        lemma_pair_is_param("cloud_rotation="@, rotation->0);
    }
    assert forall|k: int| 0 <= k < all.len() implies is_param(#[trigger] all[k]) by {
        if k < kept.len() {
            assert(all[k] == kept[k]);
        }
    }
    if kept.len() > 0 {
        assert(all[0] == kept[0]);
    } else {
        assert(all[0] == "camera_pose="@ + pose);
    }
    lemma_joined_start(all);
    lemma_split_joined(all);
    let saved = saved_query(search, pose, rotation);
    assert(saved.drop_first() =~= query);
    assert(without_marks(query) == query);
    assert(without_marks(saved) == query);
    saving_a_view_twice_is_saving_it_once(params, pose, rotation);
    assert(view_url(pathname, search, pose, rotation) =~= pathname + saved);
}

/// A parameter that has nothing to do with the view stays in the query.
pub proof fn other_parameters_stay(
    params: Seq<Seq<char>>,
    pose: Seq<char>,
    rotation: Option<Seq<char>>,
    k: int,
)
    requires
        0 <= k < params.len(),
        stays(params[k], rotation is Some),
    ensures
        params_with_view(params, pose, rotation).contains(params[k]),
{
    lemma_staying_contains(params, rotation is Some, k);
    let kept = staying(params, rotation is Some);
    let j = choose|j: int| 0 <= j < kept.len() && kept[j] == params[k];
    assert(params_with_view(params, pose, rotation)[j] == params[k]);
}

/// A parameter that stays is among those that stay.
proof fn lemma_staying_contains(params: Seq<Seq<char>>, rotation_given: bool, k: int)
    requires
        0 <= k < params.len(),
        stays(params[k], rotation_given),
    ensures
        staying(params, rotation_given).contains(params[k]),
    decreases params.len(),
{
    let now = staying(params, rotation_given);
    if k == params.len() - 1 {
        assert(now[now.len() - 1] == params[k]);
    } else {
        lemma_staying_contains(params.drop_last(), rotation_given, k);
        let before = staying(params.drop_last(), rotation_given);
        let j = choose|j: int| 0 <= j < before.len() && before[j] == params[k];
        assert(now[j] == params[k]);
    }
}

/// Queries come apart into their parameters: joining parameters without ampersands
/// and splitting the query again gives them back, in order; and a query is read
/// without the question marks in front of it.
pub proof fn queries_come_apart(params: Seq<Seq<char>>, query: Seq<char>)
    requires
        params.len() > 0,
        forall|k: int| 0 <= k < params.len() ==> !(#[trigger] params[k]).contains('&'),
    ensures
        split_params(joined_params(params)) == params,
        without_marks(seq!['?'] + query) == without_marks(query),
        query.len() > 0 && query[0] != '?' ==> without_marks(query) == query,
{
    lemma_split_joined(params);
    assert((seq!['?'] + query).drop_first() =~= query);
}

/// A saved view is in the query once, and behind everything else: the last
/// parameters are the pose and, where one is given, the rotation, and no other
/// parameter gives a pose, nor a rotation where one is given.
pub proof fn saved_views_are_in_the_query(
    params: Seq<Seq<char>>,
    pose: Seq<char>,
    rotation: Option<Seq<char>>,
    k: int,
)
    ensures
        ({
            let all = params_with_view(params, pose, rotation);
            let others = if rotation is Some {
                all.len() - 2
            } else {
                all.len() - 1
            };
            &&& others >= 0
            &&& all[others] == "camera_pose="@ + pose
            &&& rotation matches Some(text) ==> all[others + 1] == "cloud_rotation="@ + text
            &&& 0 <= k < others ==> {
                &&& all[k].len() > 0
                &&& !starts_with(all[k], "camera_pose="@)
                &&& rotation is Some ==> !starts_with(all[k], "cloud_rotation="@)
            }
        }),
{
    let kept = staying(params, rotation is Some);
    lemma_all_stay(params, rotation is Some);
    if 0 <= k < kept.len() {
        assert(params_with_view(params, pose, rotation)[k] == kept[k]);
        assert(stays(kept[k], rotation is Some));
    }
}

/// What is kept are parameters that stay.
proof fn lemma_all_stay(params: Seq<Seq<char>>, rotation_given: bool)
    ensures
        forall|k: int|
            0 <= k < staying(params, rotation_given).len() ==> stays(
                #[trigger] staying(params, rotation_given)[k],
                rotation_given,
            ),
    decreases params.len(),
{
    if params.len() > 0 {
        lemma_all_stay(params.drop_last(), rotation_given);
        let before = staying(params.drop_last(), rotation_given);
        let now = staying(params, rotation_given);
        assert forall|k: int| 0 <= k < now.len() implies stays(
            #[trigger] now[k],
            rotation_given,
        ) by {
            if k < before.len() {
                assert(now[k] == before[k]);
            }
        }
    }
}

/// Saving a view takes nothing else out of a query: every parameter that is neither
/// empty nor a pose stays, a rotation among them where none is given, and two that
/// stay keep their order.
pub proof fn saving_takes_nothing_else_out(
    params: Seq<Seq<char>>,
    pose: Seq<char>,
    rotation: Option<Seq<char>>,
    a: int,
    b: int,
) -> (r: (int, int))
    requires
        0 <= a < b < params.len(),
        params[a].len() > 0,
        params[b].len() > 0,
        !starts_with(params[a], "camera_pose="@),
        !starts_with(params[b], "camera_pose="@),
        rotation is Some ==> !starts_with(params[a], "cloud_rotation="@) && !starts_with(
            params[b],
            "cloud_rotation="@,
        ),
    ensures
        0 <= r.0 < r.1 < params_with_view(params, pose, rotation).len(),
        params_with_view(params, pose, rotation)[r.0] == params[a],
        params_with_view(params, pose, rotation)[r.1] == params[b],
{
    let kept = staying(params, rotation is Some);
    let r = lemma_order_stays(params, rotation is Some, a, b);
    assert(params_with_view(params, pose, rotation)[r.0] == kept[r.0]);
    assert(params_with_view(params, pose, rotation)[r.1] == kept[r.1]);
    r
}

/// Two parameters that stay keep their order.
proof fn lemma_order_stays(params: Seq<Seq<char>>, rotation_given: bool, a: int, b: int) -> (r: (
    int,
    int,
))
    requires
        0 <= a < b < params.len(),
        stays(params[a], rotation_given),
        stays(params[b], rotation_given),
    ensures
        0 <= r.0 < r.1 < staying(params, rotation_given).len(),
        staying(params, rotation_given)[r.0] == params[a],
        staying(params, rotation_given)[r.1] == params[b],
    decreases params.len(),
{
    let less = params.drop_last();
    let before = staying(less, rotation_given);
    let now = staying(params, rotation_given);
    assert(less[a] == params[a]);
    if b == params.len() - 1 {
        lemma_staying_contains(less, rotation_given, a);
        let j = choose|j: int| 0 <= j < before.len() && before[j] == params[a];
        assert(now[j] == before[j]);
        (j, before.len() as int)
    } else {
        assert(less[b] == params[b]);
        let r = lemma_order_stays(less, rotation_given, a, b);
        assert(now[r.0] == before[r.0] && now[r.1] == before[r.1]);
        r
    }
}

/// A saved address is that of the same page with the new query: its path, a question
/// mark, and a query that splits into the parameters with the view.
pub proof fn saved_addresses_open_with_the_view(
    pathname: Seq<char>,
    search: Seq<char>,
    pose: Seq<char>,
    rotation: Option<Seq<char>>,
)
    requires
        is_param(pose),
        rotation matches Some(text) ==> is_param(text),
    ensures
        ({
            let url = view_url(pathname, search, pose, rotation);
            &&& url.len() > pathname.len()
            &&& url.subrange(0, pathname.len() as int) == pathname
            &&& url[pathname.len() as int] == '?'
            &&& split_params(url.skip(pathname.len() as int + 1)) == params_with_view(
                split_params(without_marks(search)),
                pose,
                rotation,
            )
        }),
{
    let params = split_params(without_marks(search));
    let kept = staying(params, rotation is Some);
    let all = params_with_view(params, pose, rotation);
    let url = view_url(pathname, search, pose, rotation);
    lemma_split(without_marks(search));
    lemma_staying_from(params, rotation is Some);
    reveal_strlit("camera_pose=");
    reveal_strlit("cloud_rotation=");
    reveal_strlit("?");
    lemma_pair_is_param("camera_pose="@, pose);
    if rotation is Some {
        lemma_pair_is_param("cloud_rotation="@, rotation->0);
    }
    assert forall|k: int| 0 <= k < all.len() implies is_param(#[trigger] all[k]) by {
        if k < kept.len() {
            assert(all[k] == kept[k]);
        }
    }
    lemma_split_joined(all);
    assert(url.subrange(0, pathname.len() as int) =~= pathname);
    assert(url.skip(pathname.len() as int + 1) =~= joined_params(all));
}

/// What is said of a saved view names its pose, and its rotation where it has one.
pub proof fn saved_lines_name_the_view(pose: Seq<char>, rotation: Seq<char>)
    ensures
        ends_with(saved_line(pose, None), "--camera-pose "@ + pose),
        starts_with(saved_line(pose, Some(rotation)), saved_line(pose, None)),
        ends_with(saved_line(pose, Some(rotation)), "--cloud-rotation "@ + rotation),
{
    reveal_strlit("view saved: --camera-pose ");
    reveal_strlit("--camera-pose ");
    reveal_strlit(" --cloud-rotation ");
    reveal_strlit("--cloud-rotation ");
    let short = saved_line(pose, None);
    let long = saved_line(pose, Some(rotation));
    let a = "--camera-pose "@ + pose;
    let b = "--cloud-rotation "@ + rotation;
    assert(short.subrange(short.len() - a.len(), short.len() as int) =~= a);
    assert(long.subrange(0, short.len() as int) =~= short);
    assert(long.subrange(long.len() - b.len(), long.len() as int) =~= b);
}

} // verus!
